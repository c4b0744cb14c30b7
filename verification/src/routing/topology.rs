use vstd::prelude::*;
use vstd::set_lib::lemma_len_subset;
use crate::text::{decimal_usize, spec_decimal};

verus! {

broadcast use {vstd::set::group_set_axioms, vstd::seq_lib::group_seq_properties, vstd::seq_lib::seq_to_set_is_finite};

/// A coupling between two physical qubits.
#[derive(Clone, Copy, Debug, PartialEq, Eq, Structural)]
pub struct CouplingEdge {
    pub source: usize,
    pub target: usize,
}

/// A hardware coupling graph: physical qubits 0..qubit_count and the pairs that can
/// interact directly. Gate durations are binary64 bit patterns, by gate name.
#[derive(Debug)]
pub struct HardwareTopology {
    pub name: String,
    pub qubit_count: usize,
    pub coupling_map: Vec<CouplingEdge>,
    pub native_gates: Vec<String>,
    pub gate_duration: Vec<(String, u64)>,
}

/// Some edge joins `a` and `b`, in either direction.
pub open spec fn adjacent(edges: Seq<CouplingEdge>, a: usize, b: usize) -> bool {
    exists|i: int| 0 <= i < edges.len() && #[trigger] edge_joins(edges[i], a, b)
}

/// The edge joins `a` and `b`, in either direction.
pub open spec fn edge_joins(e: CouplingEdge, a: usize, b: usize) -> bool {
    (e.source == a && e.target == b) || (e.source == b && e.target == a)
}

/// The neighbours of `q`, one per edge that touches it, in edge order.
pub open spec fn neighbour_seq(edges: Seq<CouplingEdge>, q: usize) -> Seq<usize>
    decreases edges.len(),
{
    if edges.len() == 0 {
        Seq::empty()
    } else {
        let r = neighbour_seq(edges.drop_last(), q);
        let e = edges.last();
        if e.source == q {
            r.push(e.target)
        } else if e.target == q {
            r.push(e.source)
        } else {
            r
        }
    }
}

/// The qubits at most `k` couplings away from `src`.
pub open spec fn reach(edges: Seq<CouplingEdge>, src: usize, k: nat) -> Set<usize>
    decreases k,
{
    if k == 0 {
        set![src]
    } else {
        let r = reach(edges, src, (k - 1) as nat);
        r.union(Set::new(|b: usize| exists|a: usize| r.contains(a) && #[trigger] adjacent(edges, a, b)))
    }
}

/// `d` is the length of a shortest path from `src` to `dst`, or `usize::MAX` when there is none.
pub open spec fn is_distance(edges: Seq<CouplingEdge>, src: usize, dst: usize, d: usize) -> bool {
    if d == usize::MAX {
        forall|k: nat| !(#[trigger] reach(edges, src, k)).contains(dst)
    } else {
        &&& reach(edges, src, d as nat).contains(dst)
        &&& forall|k: nat| k < d ==> !(#[trigger] reach(edges, src, k)).contains(dst)
    }
}

/// The endpoints of all edges, and `src`.
pub open spec fn universe(edges: Seq<CouplingEdge>, src: usize) -> Seq<usize> {
    seq![src] + edges.map_values(|e: CouplingEdge| e.source) + edges.map_values(|e: CouplingEdge| e.target)
}

pub proof fn lemma_neighbour_seq(edges: Seq<CouplingEdge>, q: usize)
    ensures
        forall|b: usize| neighbour_seq(edges, q).contains(b) <==> adjacent(edges, q, b),
    decreases edges.len(),
{
    if edges.len() > 0 {
        let t = edges.drop_last();
        lemma_neighbour_seq(t, q);
        assert forall|b: usize| neighbour_seq(edges, q).contains(b) <==> adjacent(edges, q, b) by {
            let r = neighbour_seq(t, q);
            let e = edges.last();
            if adjacent(t, q, b) {
                let i = choose|i: int| 0 <= i < t.len() && #[trigger] edge_joins(t[i], q, b);
                assert(edge_joins(edges[i], q, b));
            }
            if adjacent(edges, q, b) {
                let i = choose|i: int| 0 <= i < edges.len() && #[trigger] edge_joins(edges[i], q, b);
                if i < edges.len() - 1 {
                    assert(edge_joins(t[i], q, b));
                } else {
                    assert(edge_joins(e, q, b));
                }
            }
            if e.source == q {
                assert(edge_joins(edges[edges.len() - 1], q, e.target));
                assert(r.push(e.target).contains(b) <==> (r.contains(b) || b == e.target));
            } else if e.target == q {
                assert(edge_joins(edges[edges.len() - 1], q, e.source));
                assert(r.push(e.source).contains(b) <==> (r.contains(b) || b == e.source));
            }
        }
    }
}

pub proof fn lemma_reach_monotone(edges: Seq<CouplingEdge>, src: usize, j: nat, k: nat)
    requires
        j <= k,
    ensures
        reach(edges, src, j).subset_of(reach(edges, src, k)),
    decreases k,
{
    if j < k {
        lemma_reach_monotone(edges, src, j, (k - 1) as nat);
    }
}

/// A qubit one coupling away from a qubit within `k` is within `k + 1`.
pub proof fn lemma_reach_step(edges: Seq<CouplingEdge>, src: usize, k: nat, a: usize, b: usize)
    requires
        reach(edges, src, k).contains(a),
        adjacent(edges, a, b),
    ensures
        reach(edges, src, k + 1).contains(b),
{
    let r = reach(edges, src, k);
    assert(Set::new(|b: usize| exists|a: usize| r.contains(a) && #[trigger] adjacent(edges, a, b)).contains(b));
}

/// Once a step adds nothing, no later step does.
pub proof fn lemma_reach_stable(edges: Seq<CouplingEdge>, src: usize, k: nat, m: nat)
    requires
        reach(edges, src, k + 1) == reach(edges, src, k),
        k <= m,
    ensures
        reach(edges, src, m) == reach(edges, src, k),
    decreases m,
{
    if m > k {
        lemma_reach_stable(edges, src, k, (m - 1) as nat);
        assert(reach(edges, src, m) =~= reach(edges, src, k + 1));
    }
}

pub proof fn lemma_reach_in_universe(edges: Seq<CouplingEdge>, src: usize, k: nat)
    ensures
        reach(edges, src, k).subset_of(universe(edges, src).to_set()),
    decreases k,
{
    let u = universe(edges, src);
    assert(u[0] == src);
    if k > 0 {
        lemma_reach_in_universe(edges, src, (k - 1) as nat);
        let r = reach(edges, src, (k - 1) as nat);
        assert forall|b: usize| reach(edges, src, k).contains(b) implies u.to_set().contains(b) by {
            if !r.contains(b) {
                let a = choose|a: usize| r.contains(a) && #[trigger] adjacent(edges, a, b);
                let i = choose|i: int| 0 <= i < edges.len() && #[trigger] edge_joins(edges[i], a, b);
                if edges[i].source == b {
                    assert(u[1 + i] == b);
                } else {
                    assert(u[1 + edges.len() + i] == b);
                }
            }
        }
    }
}


/// The qubits a single coupling away from some qubit of `s`.
pub open spec fn adjacent_to(edges: Seq<CouplingEdge>, s: Set<usize>) -> Set<usize> {
    Set::new(|b: usize| exists|a: usize| s.contains(a) && #[trigger] adjacent(edges, a, b))
}

/// The qubits exactly `k` couplings away from `src`.
pub open spec fn level(edges: Seq<CouplingEdge>, src: usize, k: nat) -> Set<usize> {
    if k == 0 {
        set![src]
    } else {
        reach(edges, src, k).difference(reach(edges, src, (k - 1) as nat))
    }
}

/// Each step of `reach` adds the neighbours of the qubits the step before added.
pub proof fn lemma_reach_layer(edges: Seq<CouplingEdge>, src: usize, k: nat)
    ensures
        reach(edges, src, k + 1) == reach(edges, src, k).union(adjacent_to(edges, level(edges, src, k))),
        level(edges, src, k).subset_of(reach(edges, src, k)),
{
    let r = reach(edges, src, k);
    let l = level(edges, src, k);
    assert forall|b: usize| reach(edges, src, k + 1).contains(b) implies r.union(adjacent_to(edges, l)).contains(b) by {
        if !r.contains(b) {
            let a = choose|a: usize| r.contains(a) && #[trigger] adjacent(edges, a, b);
            if l.contains(a) {
                assert(adjacent_to(edges, l).contains(b));
            } else {
                assert(k > 0);
                lemma_reach_step(edges, src, (k - 1) as nat, a, b);
            }
        }
    }
    assert forall|b: usize| r.union(adjacent_to(edges, l)).contains(b) implies reach(edges, src, k + 1).contains(b) by {
        if adjacent_to(edges, l).contains(b) {
            let a = choose|a: usize| l.contains(a) && #[trigger] adjacent(edges, a, b);
            lemma_reach_step(edges, src, k, a, b);
        }
    }
    assert(reach(edges, src, k + 1) =~= r.union(adjacent_to(edges, l)));
}

/// Whether `x` is one of `v`.
fn contains_usize(v: &Vec<usize>, x: usize) -> (b: bool)
    ensures
        b == v@.contains(x),
{
    let mut i: usize = 0;
    while i < v.len()
        invariant
            i <= v@.len(),
            forall|j: int| 0 <= j < i ==> v@[j] != x,
        decreases v@.len() - i,
    {
        if v[i] == x {
            return true;
        }
        i += 1;
    }
    false
}



/// `acc` followed by the qubits of `nbs` that are neither in `seen` nor already listed,
/// in order.
pub open spec fn add_new(acc: Seq<usize>, nbs: Seq<usize>, seen: Set<usize>) -> Seq<usize>
    decreases nbs.len(),
{
    if nbs.len() == 0 {
        acc
    } else {
        let a = add_new(acc, nbs.drop_last(), seen);
        let x = nbs.last();
        if seen.contains(x) || a.contains(x) { a } else { a.push(x) }
    }
}

/// The qubits breadth-first search discovers from the qubits `us`, in the order it
/// discovers them: each qubit's neighbours in coupling order, skipping those in `seen`
/// and those already found.
pub open spec fn expand(edges: Seq<CouplingEdge>, seen: Set<usize>, us: Seq<usize>) -> Seq<usize>
    decreases us.len(),
{
    if us.len() == 0 {
        Seq::empty()
    } else {
        add_new(expand(edges, seen, us.drop_last()), neighbour_seq(edges, us.last()), seen)
    }
}

/// The qubits exactly `k` couplings away from `src`, in breadth-first discovery order.
pub open spec fn bfs_order(edges: Seq<CouplingEdge>, src: usize, k: nat) -> Seq<usize>
    decreases k,
{
    if k == 0 {
        seq![src]
    } else {
        expand(edges, reach(edges, src, (k - 1) as nat), bfs_order(edges, src, (k - 1) as nat))
    }
}

/// The first qubit of `us` coupled to `v`.
pub open spec fn first_adjacent(edges: Seq<CouplingEdge>, us: Seq<usize>, v: usize) -> Option<usize>
    decreases us.len(),
{
    if us.len() == 0 {
        None
    } else if adjacent(edges, us[0], v) {
        Some(us[0])
    } else {
        first_adjacent(edges, us.drop_first(), v)
    }
}

/// The breadth-first search tree path from `src` to `v`, which is `k` couplings away:
/// each qubit is reached from the first qubit of the level before that is coupled to it.
pub open spec fn tree_path(edges: Seq<CouplingEdge>, src: usize, v: usize, k: nat) -> Seq<usize>
    decreases k,
{
    if k == 0 {
        seq![src]
    } else {
        match first_adjacent(edges, bfs_order(edges, src, (k - 1) as nat), v) {
            Some(u) => tree_path(edges, src, u, (k - 1) as nat).push(v),
            None => seq![src],
        }
    }
}

/// The path breadth-first search finds from `src` to `dst`, or just `src` when `dst`
/// cannot be reached.
pub open spec fn bfs_path(edges: Seq<CouplingEdge>, src: usize, dst: usize) -> Seq<usize> {
    if exists|k: nat| #[trigger] reach(edges, src, k).contains(dst) {
        let d = choose|d: nat| reach(edges, src, d).contains(dst) && forall|k: nat| k < d ==> !(#[trigger] reach(edges, src, k)).contains(dst);
        tree_path(edges, src, dst, d)
    } else {
        seq![src]
    }
}

pub proof fn lemma_add_new(acc: Seq<usize>, nbs: Seq<usize>, seen: Set<usize>)
    ensures
        forall|x: usize| add_new(acc, nbs, seen).contains(x) <==> (acc.contains(x) || (nbs.contains(x) && !seen.contains(x))),
        acc.no_duplicates() ==> add_new(acc, nbs, seen).no_duplicates(),
        acc.is_prefix_of(add_new(acc, nbs, seen)),
    decreases nbs.len(),
{
    if nbs.len() > 0 {
        lemma_add_new(acc, nbs.drop_last(), seen);
        let a = add_new(acc, nbs.drop_last(), seen);
        let x = nbs.last();
        assert forall|y: usize| nbs.contains(y) <==> (nbs.drop_last().contains(y) || y == x) by {
            if nbs.contains(y) {
                let i = choose|i: int| 0 <= i < nbs.len() && nbs[i] == y;
                if i < nbs.len() - 1 {
                    assert(nbs.drop_last()[i] == y);
                }
            }
            if nbs.drop_last().contains(y) {
                let i = choose|i: int| 0 <= i < nbs.len() - 1 && nbs.drop_last()[i] == y;
                assert(nbs[i] == y);
            }
            if y == x {
                assert(nbs[nbs.len() - 1] == y);
            }
        }
        if !(seen.contains(x) || a.contains(x)) {
            assert forall|y: usize| a.push(x).contains(y) <==> (a.contains(y) || y == x) by {
                if a.push(x).contains(y) {
                    let i = choose|i: int| 0 <= i < a.len() + 1 && a.push(x)[i] == y;
                    if i < a.len() {
                        assert(a[i] == y);
                    }
                }
                if a.contains(y) {
                    let i = choose|i: int| 0 <= i < a.len() && a[i] == y;
                    assert(a.push(x)[i] == y);
                }
                if y == x {
                    assert(a.push(x)[a.len() as int] == y);
                }
            }
            assert(acc.is_prefix_of(a.push(x))) by {
                assert forall|i: int| 0 <= i < acc.len() implies acc[i] == a.push(x)[i] by {
                    assert(acc[i] == a[i]);
                }
            }
        }
    }
}


pub proof fn lemma_expand(edges: Seq<CouplingEdge>, seen: Set<usize>, us: Seq<usize>)
    ensures
        forall|x: usize| #[trigger] expand(edges, seen, us).contains(x)
            <==> (!seen.contains(x) && exists|j: int| 0 <= j < us.len() && #[trigger] adjacent(edges, us[j], x)),
        expand(edges, seen, us).no_duplicates(),
    decreases us.len(),
{
    if us.len() > 0 {
        let t = us.drop_last();
        lemma_expand(edges, seen, t);
        let e = expand(edges, seen, t);
        let u = us.last();
        lemma_add_new(e, neighbour_seq(edges, u), seen);
        lemma_neighbour_seq(edges, u);
        assert forall|x: usize| #[trigger] expand(edges, seen, us).contains(x)
            <==> (!seen.contains(x) && exists|j: int| 0 <= j < us.len() && #[trigger] adjacent(edges, us[j], x)) by {
            if expand(edges, seen, us).contains(x) {
                if e.contains(x) {
                    let j = choose|j: int| 0 <= j < t.len() && #[trigger] adjacent(edges, t[j], x);
                    assert(us[j] == t[j]);
                } else {
                    assert(adjacent(edges, us[us.len() - 1], x));
                }
            }
            if !seen.contains(x) && exists|j: int| 0 <= j < us.len() && #[trigger] adjacent(edges, us[j], x) {
                let j = choose|j: int| 0 <= j < us.len() && #[trigger] adjacent(edges, us[j], x);
                if j < us.len() - 1 {
                    assert(t[j] == us[j]);
                    assert(e.contains(x));
                } else {
                    assert(neighbour_seq(edges, u).contains(x));
                }
            }
        }
    }
}

/// The first qubit of `us` coupled to `v` is `us[a]` when no qubit before it is.
pub proof fn lemma_first_adjacent(edges: Seq<CouplingEdge>, us: Seq<usize>, v: usize, a: int)
    requires
        0 <= a < us.len(),
        adjacent(edges, us[a], v),
        forall|j: int| 0 <= j < a ==> !adjacent(edges, #[trigger] us[j], v),
    ensures
        first_adjacent(edges, us, v) == Some(us[a]),
    decreases a,
{
    if a > 0 {
        assert(!adjacent(edges, us[0], v));
        let t = us.drop_first();
        assert forall|j: int| 0 <= j < a - 1 implies !adjacent(edges, #[trigger] t[j], v) by {
            assert(t[j] == us[j + 1]);
        }
        lemma_first_adjacent(edges, t, v, a - 1);
    }
}

/// Breadth-first discovery order lists each qubit of a level once.
pub proof fn lemma_bfs_order(edges: Seq<CouplingEdge>, src: usize, k: nat)
    ensures
        bfs_order(edges, src, k).to_set() == level(edges, src, k),
        bfs_order(edges, src, k).no_duplicates(),
    decreases k,
{
    if k == 0 {
        assert(seq![src].to_set() =~= set![src]);
    } else {
        let k1 = (k - 1) as nat;
        lemma_bfs_order(edges, src, k1);
        let o = bfs_order(edges, src, k1);
        let r = reach(edges, src, k1);
        lemma_expand(edges, r, o);
        lemma_reach_layer(edges, src, k1);
        assert forall|x: usize| bfs_order(edges, src, k).to_set().contains(x) <==> level(edges, src, k).contains(x) by {
            let e = expand(edges, r, o);
            assert(e.to_set().contains(x) <==> e.contains(x));
            if e.contains(x) {
                let j = choose|j: int| 0 <= j < o.len() && #[trigger] adjacent(edges, o[j], x);
                assert(o.to_set().contains(o[j]));
                assert(adjacent_to(edges, level(edges, src, k1)).contains(x));
            }
            if level(edges, src, k).contains(x) {
                assert(adjacent_to(edges, level(edges, src, k1)).contains(x));
                let y = choose|y: usize| level(edges, src, k1).contains(y) && #[trigger] adjacent(edges, y, x);
                assert(o.to_set().contains(y));
                let j = choose|j: int| 0 <= j < o.len() && o[j] == y;
                assert(adjacent(edges, o[j], x));
            }
        }
        assert(bfs_order(edges, src, k).to_set() =~= level(edges, src, k));
    }
}

/// The couplings of a line of `n` qubits: i to i + 1.
pub open spec fn linear_edges(n: nat) -> Seq<CouplingEdge> {
    Seq::new((n - 1) as nat, |i: int| CouplingEdge { source: i as usize, target: (i + 1) as usize })
}

/// The couplings that grid cell (r, c) adds: to its right neighbour, then to the one below.
pub open spec fn cell_edges(rows: nat, cols: nat, r: nat, c: nat) -> Seq<CouplingEdge> {
    let idx = r * cols + c;
    (if c + 1 < cols { seq![CouplingEdge { source: idx as usize, target: (idx + 1) as usize }] } else { Seq::empty() })
        + (if r + 1 < rows { seq![CouplingEdge { source: idx as usize, target: (idx + cols) as usize }] } else { Seq::empty() })
}

/// The couplings of the first `c` cells of row `r`.
pub open spec fn row_edges(rows: nat, cols: nat, r: nat, c: nat) -> Seq<CouplingEdge>
    decreases c,
{
    if c == 0 {
        Seq::empty()
    } else {
        row_edges(rows, cols, r, (c - 1) as nat) + cell_edges(rows, cols, r, (c - 1) as nat)
    }
}

/// The couplings of the first `r` rows of a `rows` x `cols` grid, cell by cell in row-major order.
pub open spec fn grid_edges(rows: nat, cols: nat, r: nat) -> Seq<CouplingEdge>
    decreases r,
{
    if r == 0 {
        Seq::empty()
    } else {
        grid_edges(rows, cols, (r - 1) as nat) + row_edges(rows, cols, (r - 1) as nat, cols)
    }
}

/// The couplings of the simplified heavy-hex layout on `n` qubits, from qubit `i` on: for
/// every even `i` below n - 1, i to i + 1, then i + 1 to i + 2 and the bridge i to i + 3
/// where those qubits exist. The chain couples each qubit to the next; the bridges give the
/// even qubits from 2 on, and the qubits three after them, a third neighbour.
pub open spec fn heavy_hex_edges(n: nat, i: nat) -> Seq<CouplingEdge>
    decreases n - i,
{
    if i + 1 >= n {
        Seq::empty()
    } else {
        seq![CouplingEdge { source: i as usize, target: (i + 1) as usize }]
            + (if i + 2 < n { seq![CouplingEdge { source: (i + 1) as usize, target: (i + 2) as usize }] } else { Seq::empty() })
            + (if i + 3 < n { seq![CouplingEdge { source: i as usize, target: (i + 3) as usize }] } else { Seq::empty() })
            + heavy_hex_edges(n, i + 2)
    }
}

/// The IBM native gate names: cx, rz, sx, x.
pub open spec fn ibm_native_names() -> Seq<Seq<char>> {
    seq!["cx"@, "rz"@, "sx"@, "x"@]
}

/// The names of a list of strings.
pub open spec fn string_views(v: Seq<String>) -> Seq<Seq<char>> {
    v.map_values(|s: String| s@)
}

fn ibm_native_gates() -> (v: Vec<String>)
    ensures
        string_views(v@) == ibm_native_names(),
{
    let mut v: Vec<String> = Vec::new();
    v.push(String::from_str("cx"));
    v.push(String::from_str("rz"));
    v.push(String::from_str("sx"));
    v.push(String::from_str("x"));
    proof {
        assert(string_views(v@) =~= ibm_native_names());
    }
    v
}

impl HardwareTopology {
    /// Whether some coupling joins `q0` and `q1`.
    pub fn are_adjacent(&self, q0: usize, q1: usize) -> (b: bool)
        ensures
            b == adjacent(self.coupling_map@, q0, q1),
    {
        let mut i: usize = 0;
        while i < self.coupling_map.len()
            invariant
                i <= self.coupling_map@.len(),
                forall|j: int| 0 <= j < i ==> !edge_joins(#[trigger] self.coupling_map@[j], q0, q1),
            decreases self.coupling_map@.len() - i,
        {
            let e = self.coupling_map[i];
            if (e.source == q0 && e.target == q1) || (e.source == q1 && e.target == q0) {
                proof { assert(edge_joins(self.coupling_map@[i as int], q0, q1)); }
                return true;
            }
            i += 1;
        }
        false
    }

    /// The neighbours of `qubit`, one per coupling that touches it, in coupling order.
    pub fn neighbours(&self, qubit: usize) -> (r: Vec<usize>)
        ensures
            r@ == neighbour_seq(self.coupling_map@, qubit),
    {
        let mut r: Vec<usize> = Vec::new();
        let mut i: usize = 0;
        while i < self.coupling_map.len()
            invariant
                i <= self.coupling_map@.len(),
                r@ == neighbour_seq(self.coupling_map@.subrange(0, i as int), qubit),
            decreases self.coupling_map@.len() - i,
        {
            proof {
                assert(self.coupling_map@.subrange(0, i + 1).drop_last() =~= self.coupling_map@.subrange(0, i as int));
            }
            let e = self.coupling_map[i];
            if e.source == qubit {
                r.push(e.target);
            } else if e.target == qubit {
                r.push(e.source);
            }
            i += 1;
        }
        proof {
            assert(self.coupling_map@.subrange(0, i as int) =~= self.coupling_map@);
        }
        r
    }

    /// Shortest path length between two physical qubits (breadth-first search), or
    /// `usize::MAX` when they are not connected.
    pub fn distance(&self, src: usize, dst: usize) -> (d: usize)
        requires
            self.coupling_map@.len() < usize::MAX / 2,
        ensures
            is_distance(self.coupling_map@, src, dst, d),
    {
        let ghost edges = self.coupling_map@;
        let ghost u = universe(edges, src);
        proof {
            u.lemma_cardinality_of_set();
        }
        if src == dst {
            proof {
                assert(reach(edges, src, 0).contains(dst));
            }
            return 0;
        }
        let mut visited: Vec<usize> = Vec::new();
        visited.push(src);
        let mut frontier: Vec<usize> = Vec::new();
        frontier.push(src);
        let mut d: usize = 0;
        proof {
            assert(visited@.to_set() =~= reach(edges, src, 0));
            assert(frontier@.to_set() =~= level(edges, src, 0));
        }
        loop
            invariant
                edges == self.coupling_map@,
                edges.len() < usize::MAX / 2,
                u == universe(edges, src),
                u.to_set().len() <= u.len(),
                u.len() == 2 * edges.len() + 1,
                visited@.to_set() == reach(edges, src, d as nat),
                visited@.no_duplicates(),
                frontier@.to_set() == level(edges, src, d as nat),
                !reach(edges, src, d as nat).contains(dst),
                d < visited@.len(),
            decreases u.len() - visited@.len(),
        {
            let ghost vis0 = visited@;
            let ghost r = reach(edges, src, d as nat);
            proof {
                lemma_reach_layer(edges, src, d as nat);
                lemma_reach_in_universe(edges, src, d as nat + 1);
                lemma_reach_monotone(edges, src, d as nat, d as nat + 1);
                assert(frontier@.subrange(0, 0).to_set() =~= Set::<usize>::empty());
                assert(adjacent_to(edges, Set::<usize>::empty()) =~= Set::<usize>::empty());
                assert(visited@.to_set() =~= r.union(adjacent_to(edges, frontier@.subrange(0, 0).to_set())));
            }
            let mut next: Vec<usize> = Vec::new();
            proof {
                assert(visited@ =~= vis0 + next@);
            }
            let mut a: usize = 0;
            while a < frontier.len()
                invariant
                    edges == self.coupling_map@,
                    edges.len() < usize::MAX / 2,
                    u == universe(edges, src),
                    u.to_set().len() <= u.len(),
                    u.len() == 2 * edges.len() + 1,
                    r == reach(edges, src, d as nat),
                    a <= frontier@.len(),
                    frontier@.to_set() == level(edges, src, d as nat),
                    reach(edges, src, d as nat + 1) == r.union(adjacent_to(edges, level(edges, src, d as nat))),
                    reach(edges, src, d as nat + 1).subset_of(u.to_set()),
                    visited@.to_set() == r.union(adjacent_to(edges, frontier@.subrange(0, a as int).to_set())),
                    visited@.to_set().subset_of(reach(edges, src, d as nat + 1)),
                    r.subset_of(reach(edges, src, d as nat + 1)),
                    visited@.no_duplicates(),
                    visited@ == vis0 + next@,
                    vis0.to_set() == r,
                    !r.contains(dst),
                    !visited@.contains(dst),
                    d < vis0.len(),
                decreases frontier@.len() - a,
            {
                let node = frontier[a];
                let nbs = self.neighbours(node);
                proof {
                    lemma_neighbour_seq(edges, node);
                    assert(frontier@.to_set().contains(node));
                }
                let ghost done = frontier@.subrange(0, a as int).to_set();
                let mut b: usize = 0;
                while b < nbs.len()
                    invariant
                        edges == self.coupling_map@,
                        edges.len() < usize::MAX / 2,
                        u == universe(edges, src),
                        u.to_set().len() <= u.len(),
                        u.len() == 2 * edges.len() + 1,
                        r == reach(edges, src, d as nat),
                        a < frontier@.len(),
                        node == frontier@[a as int],
                        level(edges, src, d as nat).contains(node),
                        frontier@.to_set() == level(edges, src, d as nat),
                        nbs@ == neighbour_seq(edges, node),
                        forall|x: usize| nbs@.contains(x) <==> adjacent(edges, node, x),
                        reach(edges, src, d as nat + 1) == r.union(adjacent_to(edges, level(edges, src, d as nat))),
                        reach(edges, src, d as nat + 1).subset_of(u.to_set()),
                        done == frontier@.subrange(0, a as int).to_set(),
                        visited@.to_set() == r.union(adjacent_to(edges, done)).union(nbs@.subrange(0, b as int).to_set()),
                        visited@.to_set().subset_of(reach(edges, src, d as nat + 1)),
                        visited@.no_duplicates(),
                        visited@ == vis0 + next@,
                        vis0.to_set() == r,
                        !r.contains(dst),
                        !visited@.contains(dst),
                        d < vis0.len(),
                        b <= nbs@.len(),
                    decreases nbs@.len() - b,
                {
                    let nb = nbs[b];
                    proof {
                        assert(nbs@.contains(nb));
                        assert(adjacent(edges, node, nb));
                        assert(adjacent_to(edges, level(edges, src, d as nat)).contains(nb));
                        assert(reach(edges, src, d as nat + 1).contains(nb));
                    }
                    if nb == dst {
                        proof {
                            assert forall|k: nat| k < d + 1 implies !(#[trigger] reach(edges, src, k)).contains(dst) by {
                                lemma_reach_monotone(edges, src, k, d as nat);
                            }
                            lemma_len_subset(visited@.to_set(), u.to_set());
                            visited@.unique_seq_to_set();
                        }
                        return d + 1;
                    }
                    let ghost old_vis = visited@;
                    if !contains_usize(&visited, nb) {
                        visited.push(nb);
                        next.push(nb);
                        proof {
                            assert(visited@.to_set() =~= old_vis.to_set().insert(nb)) by {
                                assert forall|x: usize| visited@.to_set().contains(x) implies old_vis.to_set().insert(nb).contains(x) by {
                                    let i = choose|i: int| 0 <= i < visited@.len() && visited@[i] == x;
                                    if i < old_vis.len() {
                                        assert(old_vis[i] == x);
                                    }
                                }
                                assert forall|x: usize| old_vis.to_set().insert(nb).contains(x) implies visited@.to_set().contains(x) by {
                                    if x == nb {
                                        assert(visited@[old_vis.len() as int] == nb);
                                    } else {
                                        let i = choose|i: int| 0 <= i < old_vis.len() && old_vis[i] == x;
                                        assert(visited@[i] == x);
                                    }
                                }
                            }
                            assert(visited@ =~= vis0 + next@);
                        }
                    } else {
                        proof {
                            assert(old_vis.to_set().contains(nb));
                        }
                    }
                    proof {
                        assert(nbs@.subrange(0, b + 1) =~= nbs@.subrange(0, b as int).push(nb));
                        let pre1 = nbs@.subrange(0, b + 1);
                        let pre0 = nbs@.subrange(0, b as int);
                        assert(pre1.to_set() =~= pre0.to_set().insert(nb)) by {
                            assert forall|x: usize| pre1.to_set().contains(x) implies pre0.to_set().insert(nb).contains(x) by {
                                let i = choose|i: int| 0 <= i < pre1.len() && pre1[i] == x;
                                if i < b {
                                    assert(pre0[i] == x);
                                }
                            }
                            assert forall|x: usize| pre0.to_set().insert(nb).contains(x) implies pre1.to_set().contains(x) by {
                                if x == nb {
                                    assert(pre1[b as int] == nb);
                                } else {
                                    let i = choose|i: int| 0 <= i < pre0.len() && pre0[i] == x;
                                    assert(pre1[i] == x);
                                }
                            }
                        }
                        assert(visited@.to_set() =~= r.union(adjacent_to(edges, done)).union(nbs@.subrange(0, b + 1).to_set()));
                    }
                    b += 1;
                }
                proof {
                    assert(nbs@.subrange(0, b as int) =~= nbs@);
                    assert(frontier@.subrange(0, a + 1) =~= frontier@.subrange(0, a as int).push(node));
                    assert forall|x: usize| #![trigger adjacent_to(edges, frontier@.subrange(0, a + 1).to_set()).contains(x)]
                        adjacent_to(edges, frontier@.subrange(0, a + 1).to_set()).contains(x)
                        <==> (adjacent_to(edges, done).contains(x) || nbs@.contains(x)) by {
                        if adjacent_to(edges, frontier@.subrange(0, a + 1).to_set()).contains(x) {
                            let y = choose|y: usize| frontier@.subrange(0, a + 1).to_set().contains(y) && #[trigger] adjacent(edges, y, x);
                            if y != node {
                                assert(done.contains(y));
                            }
                        }
                        if adjacent_to(edges, done).contains(x) {
                            let y = choose|y: usize| done.contains(y) && #[trigger] adjacent(edges, y, x);
                            assert(frontier@.subrange(0, a + 1).to_set().contains(y));
                        }
                        if nbs@.contains(x) {
                            assert(frontier@.subrange(0, a + 1).to_set().contains(node));
                        }
                    }
                    assert(visited@.to_set() =~= r.union(adjacent_to(edges, frontier@.subrange(0, a + 1).to_set())));
                }
                a += 1;
            }
            proof {
                assert(frontier@.subrange(0, a as int) =~= frontier@);
                assert(adjacent_to(edges, frontier@.to_set()) == adjacent_to(edges, level(edges, src, d as nat)));
                assert(visited@.to_set() == reach(edges, src, d as nat + 1));
                assert forall|x: usize| next@.to_set().contains(x) <==> level(edges, src, d as nat + 1).contains(x) by {
                    if next@.to_set().contains(x) {
                        let i = choose|i: int| 0 <= i < next@.len() && next@[i] == x;
                        assert(visited@[vis0.len() + i] == x);
                        assert(visited@.to_set().contains(x));
                        if r.contains(x) {
                            let j = choose|j: int| 0 <= j < vis0.len() && vis0[j] == x;
                            assert(visited@[j] == x);
                        }
                    }
                    if level(edges, src, d as nat + 1).contains(x) {
                        assert(visited@.to_set().contains(x));
                        let i = choose|i: int| 0 <= i < visited@.len() && visited@[i] == x;
                        if i < vis0.len() {
                            assert(vis0[i] == x);
                            assert(vis0.to_set().contains(x));
                        } else {
                            assert(next@[i - vis0.len()] == x);
                        }
                    }
                }
                assert(next@.to_set() =~= level(edges, src, d as nat + 1));
            }
            if next.len() == 0 {
                proof {
                    assert(reach(edges, src, d as nat + 1) =~= reach(edges, src, d as nat)) by {
                        assert forall|x: usize| reach(edges, src, d as nat + 1).contains(x) implies reach(edges, src, d as nat).contains(x) by {
                            if !reach(edges, src, d as nat).contains(x) {
                                assert(level(edges, src, d as nat + 1).contains(x));
                                assert(next@.to_set().contains(x));
                            }
                        }
                    }
                    assert forall|k: nat| !(#[trigger] reach(edges, src, k)).contains(dst) by {
                        if k <= d {
                            lemma_reach_monotone(edges, src, k, d as nat);
                        } else {
                            lemma_reach_stable(edges, src, d as nat, k);
                        }
                    }
                }
                return usize::MAX;
            }
            frontier = next;
            proof {
                lemma_len_subset(visited@.to_set(), u.to_set());
                visited@.unique_seq_to_set();
                assert(!visited@.to_set().contains(dst));
            }
            d += 1;
        }
    }

    /// Distances between every pair of physical qubits.
    pub fn distance_matrix(&self) -> (m: Vec<Vec<usize>>)
        requires
            self.coupling_map@.len() < usize::MAX / 2,
        ensures
            m@.len() == self.qubit_count,
            forall|i: int| 0 <= i < self.qubit_count ==> (#[trigger] m@[i])@.len() == self.qubit_count,
            forall|i: int, j: int| 0 <= i < self.qubit_count && 0 <= j < self.qubit_count
                ==> is_distance(self.coupling_map@, i as usize, j as usize, #[trigger] m@[i]@[j]),
    {
        let n = self.qubit_count;
        let mut m: Vec<Vec<usize>> = Vec::new();
        let mut i: usize = 0;
        while i < n
            invariant
                i <= n,
                n == self.qubit_count,
                self.coupling_map@.len() < usize::MAX / 2,
                m@.len() == i,
                forall|a: int| 0 <= a < i ==> (#[trigger] m@[a])@.len() == n,
                forall|a: int, b: int| 0 <= a < i && 0 <= b < n ==> is_distance(self.coupling_map@, a as usize, b as usize, #[trigger] m@[a]@[b]),
            decreases n - i,
        {
            let mut row: Vec<usize> = Vec::new();
            let mut j: usize = 0;
            while j < n
                invariant
                    j <= n,
                    i < n,
                    n == self.qubit_count,
                    self.coupling_map@.len() < usize::MAX / 2,
                    row@.len() == j,
                    forall|b: int| 0 <= b < j ==> is_distance(self.coupling_map@, i, b as usize, #[trigger] row@[b]),
                decreases n - j,
            {
                row.push(self.distance(i, j));
                j += 1;
            }
            m.push(row);
            proof {
                assert forall|a: int, b: int| 0 <= a < i + 1 && 0 <= b < n implies is_distance(self.coupling_map@, a as usize, b as usize, #[trigger] m@[a]@[b]) by {
                    if a == i {
                        assert(m@[a] == row);
                    }
                }
            }
            i += 1;
        }
        m
    }

    /// A line of `n` qubits, each coupled to the next.
    pub fn linear(n: usize) -> (t: Self)
        requires
            n >= 1,
        ensures
            t.name@ == "linear-"@ + spec_decimal(n as int),
            t.qubit_count == n,
            t.coupling_map@ == linear_edges(n as nat),
            string_views(t.native_gates@) == ibm_native_names(),
            t.gate_duration@.len() == 0,
    {
        let mut edges: Vec<CouplingEdge> = Vec::new();
        let mut i: usize = 0;
        while i < n - 1
            invariant
                i <= n - 1,
                edges@ == linear_edges(i as nat + 1),
            decreases n - 1 - i,
        {
            edges.push(CouplingEdge { source: i, target: i + 1 });
            proof {
                assert(edges@ =~= linear_edges(i as nat + 2));
            }
            i += 1;
        }
        let mut name = String::from_str("linear-");
        let d = decimal_usize(n);
        name.append(d.as_str());
        HardwareTopology { name, qubit_count: n, coupling_map: edges, native_gates: ibm_native_gates(), gate_duration: Vec::new() }
    }

    /// A `rows` x `cols` grid, each qubit coupled to its right and lower neighbours;
    /// qubit r * cols + c sits at row r, column c.
    pub fn grid(rows: usize, cols: usize) -> (t: Self)
        requires
            rows * cols <= usize::MAX,
        ensures
            t.name@ == "grid-"@ + spec_decimal(rows as int) + "x"@ + spec_decimal(cols as int),
            t.qubit_count == rows * cols,
            t.coupling_map@ == grid_edges(rows as nat, cols as nat, rows as nat),
            string_views(t.native_gates@) == ibm_native_names(),
            t.gate_duration@.len() == 0,
    {
        let n = rows * cols;
        let mut edges: Vec<CouplingEdge> = Vec::new();
        let mut r: usize = 0;
        while r < rows
            invariant
                r <= rows,
                n == rows * cols,
                rows * cols <= usize::MAX,
                edges@ == grid_edges(rows as nat, cols as nat, r as nat),
            decreases rows - r,
        {
            let mut c: usize = 0;
            while c < cols
                invariant
                    c <= cols,
                    r < rows,
                    n == rows * cols,
                    rows * cols <= usize::MAX,
                    edges@ == grid_edges(rows as nat, cols as nat, r as nat) + row_edges(rows as nat, cols as nat, r as nat, c as nat),
                decreases cols - c,
            {
                proof {
                    assert(r * cols + c < rows * cols) by (nonlinear_arith)
                        requires r < rows, c < cols;
                    assert(r + 1 < rows ==> r * cols + c + cols < rows * cols) by (nonlinear_arith)
                        requires r < rows, c < cols;
                }
                let idx = r * cols + c;
                let ghost before = edges@;
                if c + 1 < cols {
                    edges.push(CouplingEdge { source: idx, target: idx + 1 });
                }
                if r + 1 < rows {
                    edges.push(CouplingEdge { source: idx, target: idx + cols });
                }
                proof {
                    assert(edges@ =~= before + cell_edges(rows as nat, cols as nat, r as nat, c as nat));
                }
                c += 1;
            }
            r += 1;
        }
        let mut name = String::from_str("grid-");
        let dr = decimal_usize(rows);
        name.append(dr.as_str());
        name.append("x");
        let dc = decimal_usize(cols);
        name.append(dc.as_str());
        HardwareTopology { name, qubit_count: n, coupling_map: edges, native_gates: ibm_native_gates(), gate_duration: Vec::new() }
    }

    /// The simplified heavy-hex layout on `n` qubits: a chain with bridges.
    pub fn heavy_hex(n: usize) -> (t: Self)
        ensures
            t.name@ == "heavy-hex-"@ + spec_decimal(n as int),
            t.qubit_count == n,
            t.coupling_map@ == heavy_hex_edges(n as nat, 0),
            string_views(t.native_gates@) == ibm_native_names(),
            t.gate_duration@.len() == 0,
    {
        let mut edges: Vec<CouplingEdge> = Vec::new();
        let last = n.saturating_sub(1);
        let mut i: usize = 0;
        while i < last
            invariant
                last == if n >= 1 { n - 1 } else { 0 },
                edges@ + heavy_hex_edges(n as nat, i as nat) == heavy_hex_edges(n as nat, 0),
            decreases n - i,
        {
            let ghost before = edges@;
            edges.push(CouplingEdge { source: i, target: i + 1 });
            if n - i > 2 {
                edges.push(CouplingEdge { source: i + 1, target: i + 2 });
            }
            if n - i > 3 {
                edges.push(CouplingEdge { source: i, target: i + 3 });
            }
            proof {
                assert(edges@ + heavy_hex_edges(n as nat, i as nat + 2) =~= before + heavy_hex_edges(n as nat, i as nat));
            }
            if last - i < 2 {
                i = last;
                proof {
                    assert(heavy_hex_edges(n as nat, i as nat + 2) =~= Seq::<CouplingEdge>::empty());
                }
            } else {
                i += 2;
            }
        }
        proof {
            assert(heavy_hex_edges(n as nat, i as nat) =~= Seq::<CouplingEdge>::empty());
            assert(edges@ + Seq::<CouplingEdge>::empty() =~= edges@);
        }
        let mut name = String::from_str("heavy-hex-");
        let d = decimal_usize(n);
        name.append(d.as_str());
        HardwareTopology { name, qubit_count: n, coupling_map: edges, native_gates: ibm_native_gates(), gate_duration: Vec::new() }
    }
}

/// On a line, two qubits are coupled exactly when they are next to each other.
pub proof fn lemma_linear_adjacent(n: usize, a: usize, b: usize)
    requires
        n >= 1,
    ensures
        adjacent(linear_edges(n as nat), a, b) <==> (a < n && b < n && (a + 1 == b || b + 1 == a)),
{
    let e = linear_edges(n as nat);
    if a < n && b < n && (a + 1 == b || b + 1 == a) {
        let i: int = if a < b { a as int } else { b as int };
        assert(edge_joins(e[i], a, b));
    }
    if adjacent(e, a, b) {
        let i = choose|i: int| 0 <= i < e.len() && #[trigger] edge_joins(e[i], a, b);
        assert(e[i].source == i && e[i].target == i + 1);
    }
}

/// On a line, the qubits at most `k` couplings from `a` are those within `k` places of it.
pub proof fn lemma_linear_reach(n: usize, a: usize, k: nat)
    requires
        n >= 1,
        a < n,
    ensures
        forall|x: usize| #[trigger] reach(linear_edges(n as nat), a, k).contains(x)
            <==> (x < n && (if x >= a { x - a } else { a - x }) <= k),
    decreases k,
{
    let e = linear_edges(n as nat);
    if k == 0 {
        assert forall|x: usize| #[trigger] reach(e, a, k).contains(x) <==> (x < n && (if x >= a { x - a } else { a - x }) <= k) by {}
    } else {
        let k1 = (k - 1) as nat;
        lemma_linear_reach(n, a, k1);
        let r = reach(e, a, k1);
        assert forall|x: usize| #[trigger] reach(e, a, k).contains(x) <==> (x < n && (if x >= a { x - a } else { a - x }) <= k) by {
            if reach(e, a, k).contains(x) && !r.contains(x) {
                let y = choose|y: usize| r.contains(y) && #[trigger] adjacent(e, y, x);
                lemma_linear_adjacent(n, y, x);
            }
            if x < n && (if x >= a { x - a } else { a - x }) <= k && !r.contains(x) {
                let y: usize = if x > a { (x - 1) as usize } else { (x + 1) as usize };
                lemma_linear_adjacent(n, y, x);
                assert(r.contains(y));
                assert(adjacent(e, y, x));
            }
        }
    }
}

/// On a line of `n` qubits, the distance between two qubits is how many places apart they are.
pub proof fn lemma_linear_distance(n: usize, a: usize, b: usize)
    requires
        n >= 1,
        a < n,
        b < n,
    ensures
        is_distance(linear_edges(n as nat), a, b, (if b >= a { b - a } else { a - b }) as usize),
{
    let d: nat = (if b >= a { b - a } else { a - b }) as nat;
    lemma_linear_reach(n, a, d);
    assert forall|k: nat| k < d implies !(#[trigger] reach(linear_edges(n as nat), a, k)).contains(b) by {
        lemma_linear_reach(n, a, k);
    }
}

/// The coupling of qubit `j` to `j + 1`.
spec fn step_edge(j: nat) -> CouplingEdge {
    CouplingEdge { source: j as usize, target: (j + 1) as usize }
}

/// The bridge from qubit `j` to `j + 3`.
spec fn bridge_edge(j: nat) -> CouplingEdge {
    CouplingEdge { source: j as usize, target: (j + 3) as usize }
}

/// A heavy-hex coupling on `n` qubits: a chain step, or a bridge from an even qubit.
pub open spec fn heavy_hex_link(n: nat, a: nat, b: nat) -> bool {
    b < n && (b == a + 1 || (b == a + 3 && a % 2 == 0))
}

/// The heavy-hex layout from qubit `i` on couples `j` to `j + 1` for every `j` from `i` on
/// below `n - 1`, and even `j` to `j + 3`, and nothing else; no coupling occurs twice.
proof fn lemma_heavy_hex_edges(n: nat, i: nat)
    requires
        n <= usize::MAX,
        i % 2 == 0,
    ensures
        forall|k: int| 0 <= k < heavy_hex_edges(n, i).len() ==> {
            let e = #[trigger] heavy_hex_edges(n, i)[k];
            i <= e.source && heavy_hex_link(n, e.source as nat, e.target as nat)
        },
        forall|j: nat| i <= j && j + 1 < n ==> heavy_hex_edges(n, i).contains(#[trigger] step_edge(j)),
        forall|j: nat| i <= j && j + 3 < n && j % 2 == 0 ==> heavy_hex_edges(n, i).contains(#[trigger] bridge_edge(j)),
        heavy_hex_edges(n, i).no_duplicates(),
    decreases n - i,
{
    if i + 1 < n {
        lemma_heavy_hex_edges(n, i + 2);
        let first = seq![CouplingEdge { source: i as usize, target: (i + 1) as usize }];
        let second = if i + 2 < n { seq![CouplingEdge { source: (i + 1) as usize, target: (i + 2) as usize }] } else { Seq::empty() };
        let third = if i + 3 < n { seq![CouplingEdge { source: i as usize, target: (i + 3) as usize }] } else { Seq::empty() };
        let rest = heavy_hex_edges(n, i + 2);
        let all = heavy_hex_edges(n, i);
        let head = first + second + third;
        assert(all == head + rest);
        assert forall|k: int| 0 <= k < head.len() implies {
            let e = #[trigger] head[k];
            i <= e.source && e.source <= i + 1 && heavy_hex_link(n, e.source as nat, e.target as nat)
        } by {
            if k >= first.len() + second.len() {
                assert(head[k] == third[k - first.len() - second.len()]);
            } else if k >= first.len() {
                assert(head[k] == second[k - first.len()]);
            } else {
                assert(head[k] == first[k]);
            }
        }
        assert(head.no_duplicates()) by {
            assert forall|x: int, y: int| 0 <= x < head.len() && 0 <= y < head.len() && x != y implies head[x] != head[y] by {
                if second.len() == 1 && third.len() == 1 {
                    assert(head[1].source == i + 1 && head[2].source == i);
                    assert(head[0].target == i + 1 && head[2].target == i + 3);
                } else if second.len() == 1 {
                    assert(head[1].source == i + 1);
                }
            }
        }
        assert forall|k: int| 0 <= k < all.len() implies {
            let e = #[trigger] all[k];
            i <= e.source && heavy_hex_link(n, e.source as nat, e.target as nat)
        } by {
            if k >= head.len() {
                assert(all[k] == rest[k - head.len()]);
            } else {
                assert(all[k] == head[k]);
            }
        }
        assert forall|j: nat| i <= j && j + 1 < n implies all.contains(#[trigger] step_edge(j)) by {
            let e = step_edge(j);
            if j == i {
                assert(all[0] == e);
            } else if j == i + 1 {
                assert(all[1] == e);
            } else {
                let k = choose|k: int| 0 <= k < rest.len() && rest[k] == e;
                assert(all[k + head.len()] == e);
            }
        }
        assert forall|j: nat| i <= j && j + 3 < n && j % 2 == 0 implies all.contains(#[trigger] bridge_edge(j)) by {
            let e = bridge_edge(j);
            if j == i {
                assert(all[2] == e);
            } else {
                assert(j >= i + 2);
                let k = choose|k: int| 0 <= k < rest.len() && rest[k] == e;
                assert(all[k + head.len()] == e);
            }
        }
        assert(all.no_duplicates()) by {
            assert forall|x: int, y: int| 0 <= x < all.len() && 0 <= y < all.len() && x != y implies all[x] != all[y] by {
                if x < head.len() && y < head.len() {
                    assert(all[x] == head[x] && all[y] == head[y]);
                } else if x >= head.len() && y >= head.len() {
                    assert(all[x] == rest[x - head.len()] && all[y] == rest[y - head.len()]);
                } else if x < head.len() {
                    assert(all[x] == head[x] && all[y] == rest[y - head.len()]);
                    assert(rest[y - head.len()].source >= i + 2);
                } else {
                    assert(all[y] == head[y] && all[x] == rest[x - head.len()]);
                    assert(rest[x - head.len()].source >= i + 2);
                }
            }
        }
    } else {
        assert(heavy_hex_edges(n, i) =~= Seq::<CouplingEdge>::empty());
    }
}

/// Reaching along `e1` reaches along `e2` too, when `e2` couples every pair `e1` couples.
pub proof fn lemma_reach_sub(e1: Seq<CouplingEdge>, e2: Seq<CouplingEdge>, src: usize, k: nat)
    requires
        forall|a: usize, b: usize| adjacent(e1, a, b) ==> adjacent(e2, a, b),
    ensures
        reach(e1, src, k).subset_of(reach(e2, src, k)),
    decreases k,
{
    if k > 0 {
        lemma_reach_sub(e1, e2, src, (k - 1) as nat);
        let r1 = reach(e1, src, (k - 1) as nat);
        let r2 = reach(e2, src, (k - 1) as nat);
        assert forall|b: usize| reach(e1, src, k).contains(b) implies reach(e2, src, k).contains(b) by {
            if !r1.contains(b) {
                let a = choose|a: usize| r1.contains(a) && #[trigger] adjacent(e1, a, b);
                assert(r2.contains(a) && adjacent(e2, a, b));
            }
        }
    }
}

/// The heavy-hex layout couples two qubits exactly when they are next to each other in
/// the chain, or the smaller is even and the larger three after it; it lists no coupling
/// twice and joins no qubit to itself.
pub proof fn lemma_heavy_hex_adjacent(n: usize, a: usize, b: usize)
    ensures
        adjacent(heavy_hex_edges(n as nat, 0), a, b)
            <==> (heavy_hex_link(n as nat, a as nat, b as nat) || heavy_hex_link(n as nat, b as nat, a as nat)),
        heavy_hex_edges(n as nat, 0).no_duplicates(),
        forall|k: int| 0 <= k < heavy_hex_edges(n as nat, 0).len()
            ==> (#[trigger] heavy_hex_edges(n as nat, 0)[k]).source < heavy_hex_edges(n as nat, 0)[k].target < n,
{
    let h = heavy_hex_edges(n as nat, 0);
    lemma_heavy_hex_edges(n as nat, 0);
    if adjacent(h, a, b) {
        let i = choose|i: int| 0 <= i < h.len() && #[trigger] edge_joins(h[i], a, b);
        assert(heavy_hex_link(n as nat, h[i].source as nat, h[i].target as nat));
    }
    if heavy_hex_link(n as nat, a as nat, b as nat) || heavy_hex_link(n as nat, b as nat, a as nat) {
        let (lo, hi) = if a < b { (a as nat, b as nat) } else { (b as nat, a as nat) };
        let e = if hi == lo + 1 { step_edge(lo) } else { bridge_edge(lo) };
        assert(h.contains(e));
        let i = choose|i: int| 0 <= i < h.len() && h[i] == e;
        assert(edge_joins(h[i], a, b));
    }
    assert forall|k: int| 0 <= k < h.len() implies (#[trigger] h[k]).source < h[k].target < n by {
        assert(heavy_hex_link(n as nat, h[k].source as nat, h[k].target as nat));
    }
}

/// In the heavy-hex layout, every even qubit `i` from 2 on with `i + 3` below `n` is a
/// bridge qubit with three neighbours: `i - 1`, `i + 1` and `i + 3`.
pub proof fn lemma_heavy_hex_bridges(n: usize, i: usize)
    requires
        i % 2 == 0,
        2 <= i,
        i + 3 < n,
    ensures
        adjacent(heavy_hex_edges(n as nat, 0), i, (i - 1) as usize),
        adjacent(heavy_hex_edges(n as nat, 0), i, (i + 1) as usize),
        adjacent(heavy_hex_edges(n as nat, 0), i, (i + 3) as usize),
{
    lemma_heavy_hex_adjacent(n, i, (i - 1) as usize);
    lemma_heavy_hex_adjacent(n, i, (i + 1) as usize);
    lemma_heavy_hex_adjacent(n, i, (i + 3) as usize);
}

/// The qubit at row `r`, column `c` of a grid with `cols` columns.
pub open spec fn grid_cell(cols: nat, r: nat, c: nat) -> usize {
    (r * cols + c) as usize
}

proof fn lemma_cell_below(rows: nat, cols: nat, r: nat, c: nat)
    requires
        r < rows,
        c < cols,
    ensures
        r * cols + c < rows * cols,
        r + 1 < rows ==> r * cols + c + cols < rows * cols,
        (r + 1) * cols == r * cols + cols,
{
    assert((r + 1) * cols == r * cols + cols) by (nonlinear_arith);
    assert((r + 1) * cols <= rows * cols) by (nonlinear_arith)
        requires
            r < rows;
    assert(r + 1 < rows ==> (r + 2) * cols <= rows * cols) by (nonlinear_arith);
    assert((r + 2) * cols == r * cols + cols + cols) by (nonlinear_arith);
}

/// Rows plus columns between qubits `a` and `b` of a grid with `cols` columns.
pub open spec fn grid_gap(cols: nat, a: usize, b: usize) -> nat {
    grid_steps((a as nat) / cols, (a as nat) % cols, (b as nat) / cols, (b as nat) % cols)
}

/// A coupling of a `rows` x `cols` grid: it joins a qubit to a higher one below
/// `rows * cols`, one row or one column away.
pub open spec fn grid_link(rows: nat, cols: nat, e: CouplingEdge) -> bool {
    &&& e.source < e.target
    &&& e.target < rows * cols
    &&& grid_gap(cols, e.source, e.target) == 1
}

/// Qubit `r * cols + c` sits in row `r`, column `c`.
proof fn lemma_cell_coords(cols: nat, r: nat, c: nat)
    requires
        c < cols,
    ensures
        (r * cols + c) / cols == r,
        (r * cols + c) % cols == c,
{
    vstd::arithmetic::div_mod::lemma_fundamental_div_mod_converse((r * cols + c) as int, cols as int, r as int, c as int);
}

proof fn lemma_cell_links(rows: nat, cols: nat, r: nat, c: nat)
    requires
        r < rows,
        c < cols,
        rows * cols <= usize::MAX,
    ensures
        forall|k: int| 0 <= k < cell_edges(rows, cols, r, c).len() ==> grid_link(rows, cols, #[trigger] cell_edges(rows, cols, r, c)[k]),
{
    lemma_cell_below(rows, cols, r, c);
    let idx = r * cols + c;
    let cell = cell_edges(rows, cols, r, c);
    lemma_cell_coords(cols, r, c);
    if c + 1 < cols {
        lemma_cell_coords(cols, r, c + 1);
        assert(grid_link(rows, cols, CouplingEdge { source: idx as usize, target: (idx + 1) as usize }));
    }
    if r + 1 < rows {
        lemma_cell_coords(cols, r + 1, c);
        assert(grid_link(rows, cols, CouplingEdge { source: idx as usize, target: (idx + cols) as usize }));
    }
    assert forall|k: int| 0 <= k < cell.len() implies grid_link(rows, cols, #[trigger] cell[k]) by {
        if c + 1 < cols && k == 0 {
            assert(cell[k] == CouplingEdge { source: idx as usize, target: (idx + 1) as usize });
        } else {
            assert(cell[k] == CouplingEdge { source: idx as usize, target: (idx + cols) as usize });
        }
    }
}

/// Every coupling of the first `c` cells of row `r` is a grid link.
proof fn lemma_row_within(rows: nat, cols: nat, r: nat, c: nat)
    requires
        r < rows,
        c <= cols,
        rows * cols <= usize::MAX,
    ensures
        forall|k: int| 0 <= k < row_edges(rows, cols, r, c).len() ==> grid_link(rows, cols, #[trigger] row_edges(rows, cols, r, c)[k]),
    decreases c,
{
    if c > 0 {
        let c1 = (c - 1) as nat;
        lemma_row_within(rows, cols, r, c1);
        lemma_cell_links(rows, cols, r, c1);
        let a = row_edges(rows, cols, r, c1);
        let b = cell_edges(rows, cols, r, c1);
        assert forall|k: int| 0 <= k < (a + b).len() implies grid_link(rows, cols, #[trigger] (a + b)[k]) by {
            if k >= a.len() {
                assert((a + b)[k] == b[k - a.len()]);
            } else {
                assert((a + b)[k] == a[k]);
            }
        }
    }
}

/// Every coupling of the first `r` rows is a grid link.
proof fn lemma_grid_within(rows: nat, cols: nat, r: nat)
    requires
        r <= rows,
        rows * cols <= usize::MAX,
    ensures
        forall|k: int| 0 <= k < grid_edges(rows, cols, r).len() ==> grid_link(rows, cols, #[trigger] grid_edges(rows, cols, r)[k]),
    decreases r,
{
    if r > 0 {
        let r1 = (r - 1) as nat;
        lemma_grid_within(rows, cols, r1);
        lemma_row_within(rows, cols, r1, cols);
        let a = grid_edges(rows, cols, r1);
        let b = row_edges(rows, cols, r1, cols);
        assert forall|k: int| 0 <= k < (a + b).len() implies grid_link(rows, cols, #[trigger] (a + b)[k]) by {
            if k >= a.len() {
                assert((a + b)[k] == b[k - a.len()]);
            } else {
                assert((a + b)[k] == a[k]);
            }
        }
    }
}

/// The couplings of cell (`r`, `c`) are among those of the first `c2` cells of row `r`,
/// for `c` below `c2`.
proof fn lemma_row_has_cell(rows: nat, cols: nat, r: nat, c: nat, c2: nat)
    requires
        c < c2,
    ensures
        forall|e: CouplingEdge| cell_edges(rows, cols, r, c).contains(e) ==> #[trigger] row_edges(rows, cols, r, c2).contains(e),
    decreases c2,
{
    let c1 = (c2 - 1) as nat;
    let a = row_edges(rows, cols, r, c1);
    let b = cell_edges(rows, cols, r, c1);
    assert(row_edges(rows, cols, r, c2) == a + b);
    if c < c1 {
        lemma_row_has_cell(rows, cols, r, c, c1);
    }
    assert forall|e: CouplingEdge| cell_edges(rows, cols, r, c).contains(e) implies #[trigger] row_edges(rows, cols, r, c2).contains(e) by {
        if c < c1 {
            assert(a.contains(e));
            let k = choose|k: int| 0 <= k < a.len() && a[k] == e;
            assert((a + b)[k] == e);
        } else {
            let k = choose|k: int| 0 <= k < b.len() && b[k] == e;
            assert((a + b)[k + a.len()] == e);
        }
    }
}

/// The couplings of cell (`r`, `c`) are among those of the first `r2` rows, for `r`
/// below `r2` and `c` below `cols`.
proof fn lemma_grid_has_cell(rows: nat, cols: nat, r: nat, c: nat, r2: nat)
    requires
        r < r2,
        c < cols,
    ensures
        forall|e: CouplingEdge| cell_edges(rows, cols, r, c).contains(e) ==> #[trigger] grid_edges(rows, cols, r2).contains(e),
    decreases r2,
{
    let r1 = (r2 - 1) as nat;
    let a = grid_edges(rows, cols, r1);
    let b = row_edges(rows, cols, r1, cols);
    assert(grid_edges(rows, cols, r2) == a + b);
    if r < r1 {
        lemma_grid_has_cell(rows, cols, r, c, r1);
    } else {
        lemma_row_has_cell(rows, cols, r, c, cols);
    }
    assert forall|e: CouplingEdge| cell_edges(rows, cols, r, c).contains(e) implies #[trigger] grid_edges(rows, cols, r2).contains(e) by {
        if r < r1 {
            assert(a.contains(e));
            let k = choose|k: int| 0 <= k < a.len() && a[k] == e;
            assert((a + b)[k] == e);
        } else {
            assert(b.contains(e));
            let k = choose|k: int| 0 <= k < b.len() && b[k] == e;
            assert((a + b)[k + a.len()] == e);
        }
    }
}

/// In a grid, each qubit is coupled to the one on its right and the one below it.
pub proof fn lemma_grid_steps(rows: nat, cols: nat, r: nat, c: nat)
    requires
        r < rows,
        c < cols,
        rows * cols <= usize::MAX,
    ensures
        c + 1 < cols ==> adjacent(grid_edges(rows, cols, rows), grid_cell(cols, r, c), grid_cell(cols, r, c + 1)),
        r + 1 < rows ==> adjacent(grid_edges(rows, cols, rows), grid_cell(cols, r, c), grid_cell(cols, r + 1, c)),
{
    let e = grid_edges(rows, cols, rows);
    let cell = cell_edges(rows, cols, r, c);
    lemma_cell_below(rows, cols, r, c);
    lemma_grid_has_cell(rows, cols, r, c, rows);
    let idx = r * cols + c;
    if c + 1 < cols {
        let h = CouplingEdge { source: idx as usize, target: (idx + 1) as usize };
        assert(cell[0] == h);
        assert(cell.contains(h));
        assert(e.contains(h));
        let k = choose|k: int| 0 <= k < e.len() && e[k] == h;
        assert(edge_joins(e[k], grid_cell(cols, r, c), grid_cell(cols, r, c + 1)));
    }
    if r + 1 < rows {
        let j: int = if c + 1 < cols { 1 } else { 0 };
        let v = CouplingEdge { source: idx as usize, target: (idx + cols) as usize };
        assert(cell[j] == v);
        assert(cell.contains(v));
        assert(e.contains(v));
        let k = choose|k: int| 0 <= k < e.len() && e[k] == v;
        assert(edge_joins(e[k], grid_cell(cols, r, c), grid_cell(cols, r + 1, c)));
    }
}

/// In a grid, each coupling joins a qubit to a higher one below `rows * cols`, one row or
/// one column away.
pub proof fn lemma_grid_edges_within(rows: nat, cols: nat)
    requires
        rows * cols <= usize::MAX,
    ensures
        forall|k: int| 0 <= k < grid_edges(rows, cols, rows).len() ==> grid_link(rows, cols, #[trigger] grid_edges(rows, cols, rows)[k]),
{
    lemma_grid_within(rows, cols, rows);
}

/// Rows plus columns between two cells of a grid.
pub open spec fn grid_steps(ra: nat, ca: nat, rb: nat, cb: nat) -> nat {
    ((if ra >= rb { ra - rb } else { rb - ra }) + (if ca >= cb { ca - cb } else { cb - ca })) as nat
}

proof fn lemma_adjacent_flip(edges: Seq<CouplingEdge>, a: usize, b: usize)
    requires
        adjacent(edges, a, b),
    ensures
        adjacent(edges, b, a),
{
    let i = choose|i: int| 0 <= i < edges.len() && #[trigger] edge_joins(edges[i], a, b);
    assert(edge_joins(edges[i], b, a));
}

/// In a grid, the qubits at most `k` couplings from cell (`ra`, `ca`) include every cell
/// at most `k` rows plus columns away.
pub proof fn lemma_grid_reach(rows: nat, cols: nat, ra: nat, ca: nat, k: nat)
    requires
        ra < rows,
        ca < cols,
        rows * cols <= usize::MAX,
    ensures
        forall|rx: nat, cx: nat| rx < rows && cx < cols && grid_steps(ra, ca, rx, cx) <= k
            ==> #[trigger] reach(grid_edges(rows, cols, rows), grid_cell(cols, ra, ca), k).contains(grid_cell(cols, rx, cx)),
    decreases k,
{
    let e = grid_edges(rows, cols, rows);
    let src = grid_cell(cols, ra, ca);
    if k > 0 {
        let k1 = (k - 1) as nat;
        lemma_grid_reach(rows, cols, ra, ca, k1);
        let r = reach(e, src, k1);
        assert forall|rx: nat, cx: nat| rx < rows && cx < cols && grid_steps(ra, ca, rx, cx) <= k
            implies #[trigger] reach(e, src, k).contains(grid_cell(cols, rx, cx)) by {
            let x = grid_cell(cols, rx, cx);
            if grid_steps(ra, ca, rx, cx) <= k1 {
                assert(r.contains(x));
            } else {
                let (ry, cy): (nat, nat) = if cx > ca {
                    (rx, (cx - 1) as nat)
                } else if cx < ca {
                    (rx, cx + 1)
                } else if rx > ra {
                    ((rx - 1) as nat, cx)
                } else {
                    (rx + 1, cx)
                };
                let y = grid_cell(cols, ry, cy);
                assert(grid_steps(ra, ca, ry, cy) <= k1);
                assert(r.contains(y));
                if cx > ca {
                    lemma_grid_steps(rows, cols, ry, cy);
                } else if cx < ca {
                    lemma_grid_steps(rows, cols, rx, cx);
                    lemma_adjacent_flip(e, x, y);
                } else if rx > ra {
                    lemma_grid_steps(rows, cols, ry, cy);
                } else {
                    lemma_grid_steps(rows, cols, rx, cx);
                    lemma_adjacent_flip(e, x, y);
                }
                assert(adjacent(e, y, x));
            }
        }
    }
}

/// In a grid, every qubit at most `k` couplings from `a` is at most `k` rows plus columns
/// from it.
proof fn lemma_grid_reach_bound(rows: nat, cols: nat, a: usize, k: nat)
    requires
        a < rows * cols,
        rows * cols <= usize::MAX,
    ensures
        forall|x: usize| #[trigger] reach(grid_edges(rows, cols, rows), a, k).contains(x) ==> x < rows * cols && grid_gap(cols, a, x) <= k,
    decreases k,
{
    let e = grid_edges(rows, cols, rows);
    if k > 0 {
        let k1 = (k - 1) as nat;
        lemma_grid_reach_bound(rows, cols, a, k1);
        lemma_grid_edges_within(rows, cols);
        let r = reach(e, a, k1);
        assert forall|x: usize| #[trigger] reach(e, a, k).contains(x) implies x < rows * cols && grid_gap(cols, a, x) <= k by {
            if !r.contains(x) {
                let y = choose|y: usize| r.contains(y) && #[trigger] adjacent(e, y, x);
                let i = choose|i: int| 0 <= i < e.len() && #[trigger] edge_joins(e[i], y, x);
                assert(grid_link(rows, cols, e[i]));
            }
        }
    }
}

/// In a grid, the distance between two qubits is the number of rows plus columns between
/// them.
pub proof fn lemma_grid_distance(rows: usize, cols: usize, a: usize, b: usize)
    requires
        rows * cols <= usize::MAX,
        a < rows * cols,
        b < rows * cols,
    ensures
        grid_gap(cols as nat, a, b) < usize::MAX,
        is_distance(grid_edges(rows as nat, cols as nat, rows as nat), a, b, grid_gap(cols as nat, a, b) as usize),
{
    let (rn, cn) = (rows as nat, cols as nat);
    let e = grid_edges(rn, cn, rn);
    assert(cols > 0) by (nonlinear_arith)
        requires
            a < rows * cols;
    let (ra, ca) = ((a as nat) / cn, (a as nat) % cn);
    let (rb, cb) = ((b as nat) / cn, (b as nat) % cn);
    assert(a == ra * cn + ca && ca < cn && ra < rn) by (nonlinear_arith)
        requires
            cn > 0,
            a < rn * cn,
            ra == (a as nat) / cn,
            ca == (a as nat) % cn;
    assert(b == rb * cn + cb && cb < cn && rb < rn) by (nonlinear_arith)
        requires
            cn > 0,
            b < rn * cn,
            rb == (b as nat) / cn,
            cb == (b as nat) % cn;
    assert(rn + cn <= rn * cn + 1) by (nonlinear_arith)
        requires
            rn >= 1,
            cn >= 1;
    let d = grid_gap(cn, a, b);
    assert(d == grid_steps(ra, ca, rb, cb));
    lemma_grid_reach(rn, cn, ra, ca, d);
    assert(grid_cell(cn, ra, ca) == a);
    assert(grid_cell(cn, rb, cb) == b);
    assert(reach(e, a, d).contains(b));
    assert forall|k: nat| k < d implies !(#[trigger] reach(e, a, k)).contains(b) by {
        lemma_grid_reach_bound(rn, cn, a, k);
    }
}

/// In a grid, two qubits are coupled exactly when both lie in the grid and they are one
/// row or one column apart.
pub proof fn lemma_grid_adjacent(rows: usize, cols: usize, a: usize, b: usize)
    requires
        rows * cols <= usize::MAX,
    ensures
        adjacent(grid_edges(rows as nat, cols as nat, rows as nat), a, b)
            <==> (a < rows * cols && b < rows * cols && grid_gap(cols as nat, a, b) == 1),
{
    let (rn, cn) = (rows as nat, cols as nat);
    let e = grid_edges(rn, cn, rn);
    lemma_grid_edges_within(rn, cn);
    if adjacent(e, a, b) {
        let i = choose|i: int| 0 <= i < e.len() && #[trigger] edge_joins(e[i], a, b);
        assert(grid_link(rn, cn, e[i]));
    }
    if a < rows * cols && b < rows * cols && grid_gap(cn, a, b) == 1 {
        assert(cols > 0) by (nonlinear_arith)
            requires
                a < rows * cols;
        let (ra, ca) = ((a as nat) / cn, (a as nat) % cn);
        let (rb, cb) = ((b as nat) / cn, (b as nat) % cn);
        assert(a == ra * cn + ca && ca < cn && ra < rn) by (nonlinear_arith)
            requires
                cn > 0,
                a < rn * cn,
                ra == (a as nat) / cn,
                ca == (a as nat) % cn;
        assert(b == rb * cn + cb && cb < cn && rb < rn) by (nonlinear_arith)
            requires
                cn > 0,
                b < rn * cn,
                rb == (b as nat) / cn,
                cb == (b as nat) % cn;
        assert(grid_cell(cn, ra, ca) == a);
        assert(grid_cell(cn, rb, cb) == b);
        if ra == rb && ca + 1 == cb {
            lemma_grid_steps(rn, cn, ra, ca);
        } else if ra == rb && cb + 1 == ca {
            lemma_grid_steps(rn, cn, rb, cb);
            lemma_adjacent_flip(e, b, a);
        } else if ra + 1 == rb {
            lemma_grid_steps(rn, cn, ra, ca);
        } else {
            lemma_grid_steps(rn, cn, rb, cb);
            lemma_adjacent_flip(e, b, a);
        }
    }
}

} // verus!
