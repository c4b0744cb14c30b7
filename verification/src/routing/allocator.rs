use vstd::prelude::*;
use crate::circuit::{Circuit, RegisterEntries, names_distinct, total_size};
use crate::routing::sabre::edges_within;
use crate::gate::{Gate, SpecGate, keys_of};
use crate::qubit::{BitKey, QubitRef};
use crate::gate::gates_view;
use crate::routing::topology::{CouplingEdge, HardwareTopology, neighbour_seq, is_distance, reach, adjacent, lemma_neighbour_seq};

verus! {

/// The qubits of the registers in logical order: register by register in declaration
/// order, each register's qubits by index.
pub open spec fn logical_keys(regs: RegisterEntries) -> Seq<BitKey>
    decreases regs.len(),
{
    if regs.len() == 0 {
        Seq::empty()
    } else {
        let (name, size) = regs.last();
        logical_keys(regs.drop_last()) + Seq::new(size as nat, |i: int| (name, i as usize))
    }
}

/// The position of `k` in `keys`, if it occurs.
pub open spec fn index_in(keys: Seq<BitKey>, k: BitKey) -> Option<int> {
    if exists|i: int| 0 <= i < keys.len() && keys[i] == k {
        Some(choose|i: int| 0 <= i < keys.len() && keys[i] == k)
    } else {
        None
    }
}

/// `keys` holds no key twice.
pub open spec fn keys_distinct(keys: Seq<BitKey>) -> bool {
    forall|i: int, j: int| 0 <= i < keys.len() && 0 <= j < keys.len() && i != j ==> #[trigger] keys[i] != #[trigger] keys[j]
}

pub proof fn lemma_logical_keys(regs: RegisterEntries)
    requires
        names_distinct(regs),
    ensures
        logical_keys(regs).len() == total_size(regs),
        keys_distinct(logical_keys(regs)),
        forall|i: int| 0 <= i < logical_keys(regs).len() ==> exists|j: int| 0 <= j < regs.len() && regs[j].0 == (#[trigger] logical_keys(regs)[i]).0,
    decreases regs.len(),
{
    if regs.len() > 0 {
        let t = regs.drop_last();
        assert(names_distinct(t));
        lemma_logical_keys(t);
        let a = logical_keys(t);
        let (name, size) = regs.last();
        let b = Seq::new(size as nat, |i: int| (name, i as usize));
        let k = logical_keys(regs);
        assert(k == a + b);
        assert forall|i: int| 0 <= i < k.len() implies exists|j: int| 0 <= j < regs.len() && regs[j].0 == (#[trigger] k[i]).0 by {
            if i < a.len() {
                assert(k[i] == a[i]);
                let j = choose|j: int| 0 <= j < t.len() && t[j].0 == a[i].0;
                assert(regs[j] == t[j]);
            } else {
                assert(k[i] == b[i - a.len()]);
                assert(regs[regs.len() - 1].0 == name);
            }
        }
        assert forall|i: int, j: int| 0 <= i < k.len() && 0 <= j < k.len() && i != j implies k[i] != k[j] by {
            if i < a.len() && j >= a.len() {
                assert(k[i] == a[i]);
                let m = choose|m: int| 0 <= m < t.len() && t[m].0 == a[i].0;
                assert(regs[m] == t[m]);
                assert(regs[m].0 != regs[regs.len() - 1].0);
            } else if j < a.len() && i >= a.len() {
                assert(k[j] == a[j]);
                let m = choose|m: int| 0 <= m < t.len() && t[m].0 == a[j].0;
                assert(regs[m] == t[m]);
                assert(regs[m].0 != regs[regs.len() - 1].0);
            }
        }
    }
}

/// The qubits of the circuit in logical order; a qubit's logical index is its position.
pub fn build_logical_index(circuit: &Circuit) -> (keys: Vec<QubitRef>)
    requires
        total_size(circuit.qregs@) <= usize::MAX,
    ensures
        keys_of(keys@) == logical_keys(circuit.qregs@),
        keys_distinct(keys_of(keys@)),
{
    proof {
        use_type_invariant(&circuit.qregs);
        lemma_logical_keys(circuit.qregs@);
    }
    let regs = &circuit.qregs;
    let ghost entries = regs@;
    let mut keys: Vec<QubitRef> = Vec::new();
    let mut j: usize = 0;
    while j < regs.len()
        invariant
            j <= entries.len(),
            entries == regs@,
            keys_of(keys@) == logical_keys(entries.subrange(0, j as int)),
        decreases entries.len() - j,
    {
        let (name, size) = regs.entry(j);
        let ghost base = keys_of(keys@);
        let mut i: usize = 0;
        while i < size
            invariant
                i <= size,
                keys_of(keys@) == base + Seq::new(i as nat, |k: int| (name@, k as usize)),
            decreases size - i,
        {
            let ghost old_keys = keys@;
            let q = QubitRef::new(name, i);
            keys.push(q);
            proof {
                assert(keys_of(keys@) =~= keys_of(old_keys).push(q@));
                assert(keys_of(keys@) =~= base + Seq::new(i as nat + 1, |k: int| (name@, k as usize)));
            }
            i += 1;
        }
        proof {
            assert(entries.subrange(0, j + 1).drop_last() =~= entries.subrange(0, j as int));
            assert(entries.subrange(0, j + 1).last() == (name@, size));
        }
        j += 1;
    }
    proof {
        assert(entries.subrange(0, j as int) =~= entries);
    }
    keys
}

/// The logical index of `q`: its position among `keys`.
pub fn logical_index(keys: &Vec<QubitRef>, q: &QubitRef) -> (r: Option<usize>)
    requires
        keys_distinct(keys_of(keys@)),
    ensures
        r matches Some(i) ==> index_in(keys_of(keys@), q@) == Some(i as int),
        r is None ==> index_in(keys_of(keys@), q@) is None,
{
    let ghost ks = keys_of(keys@);
    let mut i: usize = 0;
    while i < keys.len()
        invariant
            i <= keys@.len(),
            ks == keys_of(keys@),
            keys_distinct(ks),
            forall|j: int| 0 <= j < i ==> ks[j] != q@,
        decreases keys@.len() - i,
    {
        if keys[i].same_as(q) {
            proof {
                assert(ks[i as int] == q@);
                let c = choose|c: int| 0 <= c < ks.len() && ks[c] == q@;
                if c != i {
                    assert(keys_distinct(ks));
                    assert(ks[c] != ks[i as int]);
                }
            }
            return Some(i);
        }
        i += 1;
    }
    None
}

/// The logical indices of the first two qubits of a two-qubit gate (CX, CZ, SWAP) or a
/// Toffoli, when every qubit it names has one.
pub open spec fn two_qubit_pair(g: SpecGate, keys: Seq<BitKey>) -> Option<(int, int)> {
    match g {
        SpecGate::Cx(a, b) => pair_of(keys, a, b),
        SpecGate::Cz(a, b) => pair_of(keys, a, b),
        SpecGate::Swap(a, b) => pair_of(keys, a, b),
        SpecGate::Ccx(a, b, c) => if index_in(keys, c) is Some { pair_of(keys, a, b) } else { None },
        _ => None,
    }
}

pub open spec fn pair_of(keys: Seq<BitKey>, a: BitKey, b: BitKey) -> Option<(int, int)> {
    match (index_in(keys, a), index_in(keys, b)) {
        (Some(x), Some(y)) => Some((x, y)),
        _ => None,
    }
}

/// A pair of logical qubits that interact, smaller index first, and how often.
pub type Interaction = (usize, usize, usize);

/// `list` with one more interaction of `l0` and `l1`: its count raised, or a new entry last.
pub open spec fn tally(list: Seq<Interaction>, l0: usize, l1: usize) -> Seq<Interaction> {
    if exists|i: int| 0 <= i < list.len() && list[i].0 == l0 && list[i].1 == l1 {
        let i = choose|i: int| 0 <= i < list.len() && list[i].0 == l0 && list[i].1 == l1;
        list.update(i, (l0, l1, (list[i].2 + 1) as usize))
    } else {
        list.push((l0, l1, 1))
    }
}

/// The interactions of the gates `gs`, in the order each pair first interacts.
pub open spec fn interactions(gs: Seq<SpecGate>, keys: Seq<BitKey>) -> Seq<Interaction>
    decreases gs.len(),
{
    if gs.len() == 0 {
        Seq::empty()
    } else {
        let list = interactions(gs.drop_last(), keys);
        match two_qubit_pair(gs.last(), keys) {
            Some((a, b)) => tally(list, if a <= b { a as usize } else { b as usize }, if a <= b { b as usize } else { a as usize }),
            None => list,
        }
    }
}

/// The position of the first most frequent interaction.
pub open spec fn max_index(list: Seq<Interaction>) -> int
    decreases list.len(),
{
    if list.len() <= 1 {
        0
    } else {
        let j = max_index(list.drop_last());
        if list.last().2 > list[j].2 { list.len() - 1 } else { j }
    }
}

/// The interactions by count, most frequent first, equal counts in their order in `list`.
pub open spec fn by_count(list: Seq<Interaction>) -> Seq<Interaction>
    decreases list.len(),
{
    if list.len() == 0 {
        Seq::empty()
    } else {
        let j = max_index(list);
        proof {
            lemma_max_index(list);
        }
        seq![list[j]] + by_count(list.remove(j))
    }
}

pub proof fn lemma_max_index(list: Seq<Interaction>)
    requires
        list.len() >= 1,
    ensures
        0 <= max_index(list) < list.len(),
        forall|i: int| 0 <= i < list.len() ==> (#[trigger] list[i]).2 <= list[max_index(list)].2,
        forall|i: int| 0 <= i < max_index(list) ==> (#[trigger] list[i]).2 < list[max_index(list)].2,
    decreases list.len(),
{
    if list.len() > 1 {
        let t = list.drop_last();
        lemma_max_index(t);
        let j = max_index(t);
        assert forall|i: int| 0 <= i < list.len() - 1 implies list[i] == t[i] by {}
    }
}

/// The qubits below `n`, from `p` on, that are not in `used`, in increasing order.
pub open spec fn free_from(n: nat, used: Set<usize>, p: nat) -> Seq<usize>
    decreases n - p,
{
    if p >= n {
        Seq::empty()
    } else if used.contains(p as usize) {
        free_from(n, used, p + 1)
    } else {
        seq![p as usize] + free_from(n, used, p + 1)
    }
}

/// The first qubit below `n` not in `used`, or 0 when there is none.
pub open spec fn first_free_qubit(n: nat, used: Set<usize>) -> usize {
    let f = free_from(n, used, 0);
    if f.len() > 0 { f[0] } else { 0 }
}

/// The first coupling, from the `i`-th on, whose ends are both unused.
pub open spec fn free_edge(edges: Seq<CouplingEdge>, used: Set<usize>, i: int) -> Option<CouplingEdge>
    decreases edges.len() - i,
{
    if i < 0 || i >= edges.len() {
        None
    } else if !used.contains(edges[i].source) && !used.contains(edges[i].target) {
        Some(edges[i])
    } else {
        free_edge(edges, used, i + 1)
    }
}

/// Where a pair of unplaced logical qubits goes: the ends of the first coupling with both
/// ends unused, else the first two unused qubits (the first twice when only one is
/// unused); nothing when none is unused.
pub open spec fn best_pair(edges: Seq<CouplingEdge>, used: Set<usize>, n: nat) -> Option<(usize, usize)> {
    match free_edge(edges, used, 0) {
        Some(e) => Some((e.source, e.target)),
        None => {
            let f = free_from(n, used, 0);
            if f.len() == 0 {
                None
            } else {
                Some((f[0], if f.len() > 1 { f[1] } else { f[0] }))
            }
        },
    }
}

/// The first of `nbs` not in `used`.
pub open spec fn first_unused(nbs: Seq<usize>, used: Set<usize>) -> Option<usize>
    decreases nbs.len(),
{
    if nbs.len() == 0 {
        None
    } else if !used.contains(nbs[0]) {
        Some(nbs[0])
    } else {
        first_unused(nbs.drop_first(), used)
    }
}

/// Where a logical qubit goes next to one placed on `p0`: the first unused neighbour of
/// `p0`, else the first unused qubit.
pub open spec fn next_to(edges: Seq<CouplingEdge>, p0: usize, used: Set<usize>, n: nat) -> usize {
    match first_unused(neighbour_seq(edges, p0), used) {
        Some(p) => p,
        None => first_free_qubit(n, used),
    }
}

/// A partial placement: each logical qubit's physical qubit (`usize::MAX` for none yet),
/// and the physical qubits taken.
pub type Allocation = (Seq<usize>, Set<usize>);

/// Placing the interacting pair `l0`, `l1`; nothing when no qubit is free for a pair.
pub open spec fn place_pair(edges: Seq<CouplingEdge>, n: nat, st: Allocation, l0: usize, l1: usize) -> Option<Allocation> {
    let (m, used) = st;
    if m[l0 as int] != usize::MAX && m[l1 as int] != usize::MAX {
        Some(st)
    } else if m[l0 as int] == usize::MAX && m[l1 as int] == usize::MAX {
        match best_pair(edges, used, n) {
            Some((a, b)) => Some((m.update(l0 as int, a).update(l1 as int, b), used.insert(a).insert(b))),
            None => None,
        }
    } else if m[l0 as int] != usize::MAX {
        let nb = next_to(edges, m[l0 as int], used, n);
        Some((m.update(l1 as int, nb), used.insert(nb)))
    } else {
        let nb = next_to(edges, m[l1 as int], used, n);
        Some((m.update(l0 as int, nb), used.insert(nb)))
    }
}

/// Placing the pairs of `list` in order.
pub open spec fn place_all(edges: Seq<CouplingEdge>, n: nat, st: Allocation, list: Seq<Interaction>) -> Option<Allocation>
    decreases list.len(),
{
    if list.len() == 0 {
        Some(st)
    } else {
        match place_all(edges, n, st, list.drop_last()) {
            Some(s) => place_pair(edges, n, s, list.last().0, list.last().1),
            None => None,
        }
    }
}

/// Giving each unplaced logical qubit, from the `i`-th on, the first free physical qubit.
pub open spec fn fill_from(n: nat, st: Allocation, i: nat) -> Seq<usize>
    decreases st.0.len() - i,
{
    if i >= st.0.len() {
        st.0
    } else if st.0[i as int] == usize::MAX {
        let p = first_free_qubit(n, st.1);
        fill_from(n, (st.0.update(i as int, p), st.1.insert(p)), i + 1)
    } else {
        fill_from(n, st, i + 1)
    }
}

/// The placement of the circuit's logical qubits on the topology: the pairs that interact
/// most placed first, on coupled qubits where possible; the rest on the first free qubits.
/// Nothing when the placement runs out of free qubits for a pair.
pub open spec fn allocation(circuit: Circuit, topology: HardwareTopology) -> Option<Seq<usize>> {
    let keys = logical_keys(circuit.qregs@);
    let n = topology.qubit_count as nat;
    let list = by_count(interactions(gates_view(circuit.gates@), keys));
    let start: Allocation = (Seq::new(keys.len(), |i: int| usize::MAX), Set::empty());
    match place_all(topology.coupling_map@, n, start, list) {
        Some(st) => Some(fill_from(n, st, 0)),
        None => None,
    }
}

/// The logical indices of the first two qubits of a two-qubit gate or a Toffoli, when
/// every qubit it names has one.
pub fn two_qubit_logical_indices(gate: &Gate, keys: &Vec<QubitRef>) -> (r: Option<(usize, usize)>)
    requires
        keys_distinct(keys_of(keys@)),
    ensures
        r matches Some((a, b)) ==> two_qubit_pair(gate@, keys_of(keys@)) == Some((a as int, b as int)),
        r is None ==> two_qubit_pair(gate@, keys_of(keys@)) is None,
{
    match gate {
        Gate::Cx(c, t) | Gate::Cz(c, t) | Gate::Swap(c, t) => {
            let l0 = match logical_index(keys, c) { Some(i) => i, None => return None };
            let l1 = match logical_index(keys, t) { Some(i) => i, None => return None };
            Some((l0, l1))
        },
        Gate::Ccx(a, b, c) => {
            let l0 = match logical_index(keys, a) { Some(i) => i, None => return None };
            let l1 = match logical_index(keys, b) { Some(i) => i, None => return None };
            match logical_index(keys, c) { Some(_) => {}, None => return None };
            Some((l0, l1))
        },
        _ => None,
    }
}

/// No pair occurs twice in `list`, every count is at most `bound`, and each index is below `len`.
pub open spec fn tally_ok(list: Seq<Interaction>, bound: nat, len: nat) -> bool {
    &&& forall|i: int, j: int| 0 <= i < list.len() && 0 <= j < list.len() && i != j
        ==> !(#[trigger] list[i].0 == #[trigger] list[j].0 && list[i].1 == list[j].1)
    &&& forall|i: int| 0 <= i < list.len() ==> (#[trigger] list[i]).2 <= bound
    &&& forall|i: int| 0 <= i < list.len() ==> (#[trigger] list[i]).0 < len && list[i].1 < len
}

/// How often each pair of logical qubits interacts, in the order each pair first does.
fn count_interactions(gates: &Vec<Gate>, keys: &Vec<QubitRef>) -> (list: Vec<Interaction>)
    requires
        keys_distinct(keys_of(keys@)),
    ensures
        list@ == interactions(gates_view(gates@), keys_of(keys@)),
        tally_ok(list@, gates@.len() as nat, keys@.len() as nat),
{
    let ghost ks = keys_of(keys@);
    let mut list: Vec<Interaction> = Vec::new();
    let mut g: usize = 0;
    while g < gates.len()
        invariant
            g <= gates@.len(),
            ks == keys_of(keys@),
            keys_distinct(ks),
            list@ == interactions(gates_view(gates@.subrange(0, g as int)), ks),
            tally_ok(list@, g as nat, keys@.len() as nat),
        decreases gates@.len() - g,
    {
        proof {
            assert(gates_view(gates@.subrange(0, g + 1)).drop_last() =~= gates_view(gates@.subrange(0, g as int)));
        }
        match two_qubit_logical_indices(&gates[g], keys) {
            Some((a, b)) => {
                let l0 = if a <= b { a } else { b };
                let l1 = if a <= b { b } else { a };
                let mut i: usize = 0;
                let mut found = false;
                while i < list.len()
                    invariant_except_break
                        !found,
                    invariant
                        i <= list@.len(),
                        forall|j: int| 0 <= j < i ==> !(#[trigger] list@[j].0 == l0 && list@[j].1 == l1),
                    ensures
                        found ==> i < list@.len() && list@[i as int].0 == l0 && list@[i as int].1 == l1,
                        !found ==> forall|j: int| 0 <= j < list@.len() ==> !(#[trigger] list@[j].0 == l0 && list@[j].1 == l1),
                    decreases list@.len() - i,
                {
                    if list[i].0 == l0 && list[i].1 == l1 {
                        found = true;
                        break;
                    }
                    i += 1;
                }
                if found {
                    let entry = list[i];
                    proof {
                        assert(list@[i as int].0 == l0 && list@[i as int].1 == l1);
                        let c = choose|c: int| 0 <= c < list@.len() && list@[c].0 == l0 && list@[c].1 == l1;
                        if c != i {
                            assert(list@[c].0 == list@[i as int].0 && list@[c].1 == list@[i as int].1);
                        }
                    }
                    list.set(i, (l0, l1, entry.2 + 1));
                } else {
                    list.push((l0, l1, 1));
                }
            },
            None => {},
        }
        g += 1;
    }
    proof {
        assert(gates@.subrange(0, g as int) =~= gates@);
    }
    list
}

/// The interactions by count, most frequent first, equal counts in their order in `list`.
fn sort_by_count(list: Vec<Interaction>) -> (r: Vec<Interaction>)
    ensures
        r@ == by_count(list@),
{
    let mut rest = list;
    let mut out: Vec<Interaction> = Vec::new();
    while rest.len() > 0
        invariant
            by_count(list@) == out@ + by_count(rest@),
        decreases rest@.len(),
    {
        let mut j: usize = 0;
        let mut k: usize = 1;
        proof {
            assert(rest@.subrange(0, 1).len() == 1);
            assert(max_index(rest@.subrange(0, 1)) == 0);
        }
        while k < rest.len()
            invariant
                1 <= k <= rest@.len(),
                j == max_index(rest@.subrange(0, k as int)),
            decreases rest@.len() - k,
        {
            proof {
                assert(rest@.subrange(0, k + 1).drop_last() =~= rest@.subrange(0, k as int));
                lemma_max_index(rest@.subrange(0, k as int));
            }
            if rest[k].2 > rest[j].2 {
                j = k;
            }
            k += 1;
        }
        proof {
            assert(rest@.subrange(0, k as int) =~= rest@);
            lemma_max_index(rest@);
        }
        let ghost before = rest@;
        let e = rest.remove(j);
        let ghost o = out@;
        out.push(e);
        proof {
            assert(rest@ == before.remove(j as int));
            assert(out@ + by_count(rest@) =~= o + (seq![e] + by_count(rest@)));
        }
    }
    proof {
        assert(out@ + by_count(rest@) =~= out@);
    }
    out
}

/// The physical qubits marked taken.
pub open spec fn taken(used: Seq<bool>) -> Set<usize> {
    Set::new(|p: usize| (p as int) < used.len() && used[p as int])
}

pub proof fn lemma_free_from(n: nat, used: Set<usize>, p: nat)
    requires
        n <= usize::MAX,
    ensures
        forall|i: int| 0 <= i < free_from(n, used, p).len() ==> {
            let x = #[trigger] free_from(n, used, p)[i];
            p <= x < n && !used.contains(x)
        },
        forall|i: int, j: int| 0 <= i < j < free_from(n, used, p).len() ==> #[trigger] free_from(n, used, p)[i] < #[trigger] free_from(n, used, p)[j],
    decreases n - p,
{
    if p < n {
        lemma_free_from(n, used, p + 1);
        let f1 = free_from(n, used, p + 1);
        if !used.contains(p as usize) {
            let f = free_from(n, used, p);
            assert(f == seq![p as usize] + f1);
            assert forall|i: int| 0 <= i < f.len() implies {
                let x = #[trigger] f[i];
                p <= x < n && !used.contains(x)
            } by {
                if i > 0 {
                    assert(f[i] == f1[i - 1]);
                }
            }
            assert forall|i: int, j: int| 0 <= i < j < f.len() implies #[trigger] f[i] < #[trigger] f[j] by {
                assert(f[j] == f1[j - 1]);
                if i > 0 {
                    assert(f[i] == f1[i - 1]);
                }
            }
        }
    }
}

/// The first physical qubit below `n` not taken, or 0 when all are.
fn first_free(n: usize, used: &Vec<bool>) -> (p: usize)
    requires
        used@.len() == n,
    ensures
        p == first_free_qubit(n as nat, taken(used@)),
{
    let ghost s = taken(used@);
    let mut p: usize = 0;
    while p < n && used[p]
        invariant
            p <= n,
            used@.len() == n,
            s == taken(used@),
            free_from(n as nat, s, 0) == free_from(n as nat, s, p as nat),
        decreases n - p,
    {
        proof {
            assert(s.contains(p));
        }
        p += 1;
    }
    if p < n {
        proof {
            assert(!s.contains(p));
        }
        p
    } else {
        0
    }
}

/// Whether physical qubit `p` is taken.
fn is_taken(used: &Vec<bool>, p: usize) -> (b: bool)
    ensures
        b == taken(used@).contains(p),
{
    p < used.len() && used[p]
}

/// Where a pair of unplaced logical qubits goes: the ends of the first coupling with both
/// ends free, else the first two free qubits.
fn best_adjacent_pair(topology: &HardwareTopology, used: &Vec<bool>) -> (r: (usize, usize))
    requires
        used@.len() == topology.qubit_count,
        best_pair(topology.coupling_map@, taken(used@), topology.qubit_count as nat) is Some,
    ensures
        r == best_pair(topology.coupling_map@, taken(used@), topology.qubit_count as nat)->0,
{
    let ghost edges = topology.coupling_map@;
    let ghost s = taken(used@);
    let n = topology.qubit_count;
    let mut i: usize = 0;
    while i < topology.coupling_map.len()
        invariant
            i <= edges.len(),
            edges == topology.coupling_map@,
            s == taken(used@),
            free_edge(edges, s, 0) == free_edge(edges, s, i as int),
        decreases edges.len() - i,
    {
        let e = topology.coupling_map[i];
        if !is_taken(used, e.source) && !is_taken(used, e.target) {
            return (e.source, e.target);
        }
        i += 1;
    }
    let mut free: Vec<usize> = Vec::new();
    let mut p: usize = 0;
    while p < n
        invariant
            p <= n,
            n == topology.qubit_count,
            used@.len() == n,
            s == taken(used@),
            free@ + free_from(n as nat, s, p as nat) == free_from(n as nat, s, 0),
        decreases n - p,
    {
        if !is_taken(used, p) {
            let ghost f = free@;
            free.push(p);
            proof {
                assert(free@ + free_from(n as nat, s, p as nat + 1) =~= f + free_from(n as nat, s, p as nat));
            }
        }
        p += 1;
    }
    proof {
        assert(free@ =~= free_from(n as nat, s, 0));
    }
    (free[0], if free.len() > 1 { free[1] } else { free[0] })
}

/// `first_unused` of a list grown by one: unchanged when it found one, else `x` if free.
proof fn lemma_first_unused_push(nbs: Seq<usize>, x: usize, used: Set<usize>)
    ensures
        first_unused(nbs.push(x), used) == (match first_unused(nbs, used) {
            Some(p) => Some(p),
            None => if !used.contains(x) { Some(x) } else { None },
        }),
    decreases nbs.len(),
{
    if nbs.len() > 0 {
        assert(nbs.push(x).drop_first() =~= nbs.drop_first().push(x));
        assert(nbs.push(x)[0] == nbs[0]);
        lemma_first_unused_push(nbs.drop_first(), x, used);
        if used.contains(nbs[0]) {
            assert(first_unused(nbs, used) == first_unused(nbs.drop_first(), used));
            assert(first_unused(nbs.push(x), used) == first_unused(nbs.push(x).drop_first(), used));
        }
    } else {
        assert(nbs.push(x).drop_first() =~= Seq::<usize>::empty());
        assert(nbs.push(x)[0] == x);
        assert(first_unused(Seq::<usize>::empty(), used) is None);
        assert(first_unused(nbs, used) is None);
    }
}

/// A qubit coupled to `p0`, other than `p0`, is at distance 1 from it.
proof fn lemma_distance_one(edges: Seq<CouplingEdge>, p0: usize, p: usize, d: usize)
    requires
        adjacent(edges, p0, p),
        p != p0,
        is_distance(edges, p0, p, d),
    ensures
        d == 1,
{
    assert(reach(edges, p0, 0).contains(p0));
    assert(reach(edges, p0, 1).contains(p));
    assert(!reach(edges, p0, 0).contains(p));
}

/// Where a logical qubit goes next to one placed on the taken qubit `p0`: among its free
/// neighbours the nearest (the first, as all are one coupling away), else the first free qubit.
fn neighbour_for(topology: &HardwareTopology, dist: &Vec<Vec<usize>>, p0: usize, used: &Vec<bool>) -> (r: usize)
    requires
        p0 < topology.qubit_count,
        used@.len() == topology.qubit_count,
        taken(used@).contains(p0),
        dist@.len() == topology.qubit_count,
        forall|i: int| 0 <= i < topology.qubit_count ==> (#[trigger] dist@[i])@.len() == topology.qubit_count,
        forall|i: int, j: int| 0 <= i < topology.qubit_count && 0 <= j < topology.qubit_count
            ==> is_distance(topology.coupling_map@, i as usize, j as usize, #[trigger] dist@[i]@[j]),
        forall|i: int| 0 <= i < topology.coupling_map@.len() ==> (#[trigger] topology.coupling_map@[i]).source < topology.qubit_count
            && topology.coupling_map@[i].target < topology.qubit_count,
    ensures
        r == next_to(topology.coupling_map@, p0, taken(used@), topology.qubit_count as nat),
{
    let ghost edges = topology.coupling_map@;
    let ghost s = taken(used@);
    let n = topology.qubit_count;
    let nbs = topology.neighbours(p0);
    proof {
        lemma_neighbour_seq(edges, p0);
    }
    let mut best: Option<usize> = None;
    let mut i: usize = 0;
    while i < nbs.len()
        invariant
            i <= nbs@.len(),
            nbs@ == neighbour_seq(edges, p0),
            forall|b: usize| nbs@.contains(b) <==> adjacent(edges, p0, b),
            edges == topology.coupling_map@,
            n == topology.qubit_count,
            p0 < n,
            s == taken(used@),
            s.contains(p0),
            dist@.len() == n,
            forall|k: int| 0 <= k < n ==> (#[trigger] dist@[k])@.len() == n,
            forall|a: int, b: int| 0 <= a < n && 0 <= b < n ==> is_distance(edges, a as usize, b as usize, #[trigger] dist@[a]@[b]),
            forall|k: int| 0 <= k < edges.len() ==> (#[trigger] edges[k]).source < n && edges[k].target < n,
            best == first_unused(nbs@.subrange(0, i as int), s),
            best matches Some(b) ==> b < n && dist@[p0 as int]@[b as int] == 1,
        decreases nbs@.len() - i,
    {
        let p = nbs[i];
        proof {
            assert(nbs@.subrange(0, i + 1) =~= nbs@.subrange(0, i as int).push(p));
            lemma_first_unused_push(nbs@.subrange(0, i as int), p, s);
            assert(nbs@.contains(p));
            let k = choose|k: int| 0 <= k < edges.len() && #[trigger] crate::routing::topology::edge_joins(edges[k], p0, p);
            assert(p < n);
        }
        if !is_taken(used, p) {
            proof {
                lemma_distance_one(edges, p0, p, dist@[p0 as int]@[p as int]);
            }
            match best {
                None => {
                    best = Some(p);
                },
                Some(b) => {
                    if dist[p0][p] < dist[p0][b] {
                        best = Some(p);
                    }
                },
            }
        }
        i += 1;
    }
    proof {
        assert(nbs@.subrange(0, i as int) =~= nbs@);
    }
    match best {
        Some(p) => p,
        None => first_free(n, used),
    }
}

proof fn lemma_first_unused_in(nbs: Seq<usize>, used: Set<usize>)
    ensures
        first_unused(nbs, used) matches Some(p) ==> nbs.contains(p) && !used.contains(p),
    decreases nbs.len(),
{
    if nbs.len() > 0 {
        lemma_first_unused_in(nbs.drop_first(), used);
        if let Some(p) = first_unused(nbs, used) {
            if used.contains(nbs[0]) {
                let i = choose|i: int| 0 <= i < nbs.drop_first().len() && nbs.drop_first()[i] == p;
                assert(nbs[i + 1] == p);
            } else {
                assert(nbs[0] == p);
            }
        }
    }
}

/// Every entry of `by_count(list)` is an entry of `list`.
proof fn lemma_by_count(list: Seq<Interaction>)
    ensures
        by_count(list).len() == list.len(),
        forall|i: int| 0 <= i < by_count(list).len() ==> list.contains(#[trigger] by_count(list)[i]),
    decreases list.len(),
{
    if list.len() > 0 {
        lemma_max_index(list);
        let j = max_index(list);
        let r = list.remove(j);
        lemma_by_count(r);
        assert forall|i: int| 0 <= i < by_count(list).len() implies list.contains(#[trigger] by_count(list)[i]) by {
            if i == 0 {
                assert(list[j] == by_count(list)[0]);
            } else {
                assert(by_count(list)[i] == by_count(r)[i - 1]);
                let k = choose|k: int| 0 <= k < r.len() && r[k] == by_count(r)[i - 1];
                if k < j {
                    assert(list[k] == r[k]);
                } else {
                    assert(list[k + 1] == r[k]);
                }
            }
        }
    }
}

/// Placing a prefix of pairs succeeds when placing them all does.
proof fn lemma_place_prefix(edges: Seq<CouplingEdge>, n: nat, st: Allocation, list: Seq<Interaction>, k: int)
    requires
        0 <= k <= list.len(),
        place_all(edges, n, st, list) is Some,
    ensures
        place_all(edges, n, st, list.subrange(0, k)) is Some,
    decreases list.len() - k,
{
    if k < list.len() {
        lemma_place_prefix(edges, n, st, list, k + 1);
        assert(list.subrange(0, k + 1).drop_last() =~= list.subrange(0, k));
    } else {
        assert(list.subrange(0, k) =~= list);
    }
}

/// Marking `p` taken adds it to the taken set.
proof fn lemma_take(used: Seq<bool>, p: usize)
    requires
        p < used.len(),
    ensures
        taken(used.update(p as int, true)) == taken(used).insert(p),
{
    assert(taken(used.update(p as int, true)) =~= taken(used).insert(p));
}

/// Places the circuit's logical qubits on the topology's physical qubits: the pairs that
/// interact most (in CX, CZ, SWAP and Toffoli gates) first, on coupled qubits where
/// possible; every logical qubit left over on the first free physical qubit. Returns the
/// physical qubit of each logical qubit.
pub fn allocate_qubits(circuit: &Circuit, topology: &HardwareTopology) -> (mapping: Vec<usize>)
    requires
        total_size(circuit.qregs@) <= topology.qubit_count,
        edges_within(topology.coupling_map@, topology.qubit_count as nat),
        topology.coupling_map@.len() < usize::MAX / 2,
        allocation(*circuit, *topology) is Some,
    ensures
        mapping@ == allocation(*circuit, *topology)->0,
{
    let ghost edges = topology.coupling_map@;
    let n = topology.qubit_count;
    let logical_count = circuit.qubit_count();
    let keys = build_logical_index(circuit);
    proof {
        use_type_invariant(&circuit.qregs);
        lemma_logical_keys(circuit.qregs@);
    }
    let ghost ks = keys_of(keys@);
    let list = count_interactions(&circuit.gates, &keys);
    let dist = topology.distance_matrix();
    let ghost list0 = list@;
    let pairs = sort_by_count(list);
    proof {
        lemma_by_count(list0);
        assert forall|i: int| 0 <= i < pairs@.len() implies (#[trigger] pairs@[i]).0 < logical_count && pairs@[i].1 < logical_count by {
            assert(list0.contains(pairs@[i]));
            let j = choose|j: int| 0 <= j < list0.len() && list0[j] == pairs@[i];
            assert(list0[j].0 < keys@.len());
        }
    }
    let mut mapping: Vec<usize> = Vec::new();
    let mut i: usize = 0;
    while i < logical_count
        invariant
            i <= logical_count,
            mapping@ == Seq::new(i as nat, |j: int| usize::MAX),
        decreases logical_count - i,
    {
        mapping.push(usize::MAX);
        proof { assert(mapping@ =~= Seq::new(i as nat + 1, |j: int| usize::MAX)); }
        i += 1;
    }
    let mut used: Vec<bool> = Vec::new();
    let mut p: usize = 0;
    while p < n
        invariant
            p <= n,
            used@ == Seq::new(p as nat, |j: int| false),
        decreases n - p,
    {
        used.push(false);
        proof { assert(used@ =~= Seq::new(p as nat + 1, |j: int| false)); }
        p += 1;
    }
    let ghost start: Allocation = (Seq::new(ks.len(), |i: int| usize::MAX), Set::empty());
    proof {
        assert(mapping@ =~= start.0);
        assert(taken(used@) =~= start.1);
        assert(pairs@ == by_count(interactions(gates_view(circuit.gates@), ks)));
    }
    let mut k: usize = 0;
    while k < pairs.len()
        invariant
            k <= pairs@.len(),
            edges == topology.coupling_map@,
            n == topology.qubit_count,
            logical_count <= n,
            edges_within(edges, n as nat),
            mapping@.len() == logical_count,
            used@.len() == n,
            forall|j: int| 0 <= j < pairs@.len() ==> (#[trigger] pairs@[j]).0 < logical_count && pairs@[j].1 < logical_count,
            forall|j: int| 0 <= j < logical_count ==> #[trigger] mapping@[j] == usize::MAX
                || (mapping@[j] < n && taken(used@).contains(mapping@[j])),
            dist@.len() == n,
            forall|a: int| 0 <= a < n ==> (#[trigger] dist@[a])@.len() == n,
            forall|a: int, b: int| 0 <= a < n && 0 <= b < n ==> is_distance(edges, a as usize, b as usize, #[trigger] dist@[a]@[b]),
            place_all(edges, n as nat, start, pairs@) is Some,
            place_all(edges, n as nat, start, pairs@.subrange(0, k as int)) == Some((mapping@, taken(used@))),
        decreases pairs@.len() - k,
    {
        proof {
            assert(pairs@.subrange(0, k + 1).drop_last() =~= pairs@.subrange(0, k as int));
            lemma_place_prefix(edges, n as nat, start, pairs@, k + 1);
        }
        let (l0, l1, _) = pairs[k];
        let ghost s = taken(used@);
        if mapping[l0] != usize::MAX && mapping[l1] != usize::MAX {
        } else if mapping[l0] == usize::MAX && mapping[l1] == usize::MAX {
            let best = best_adjacent_pair(topology, &used);
            proof {
                if free_edge(edges, s, 0) is None {
                    lemma_free_from(n as nat, s, 0);
                } else {
                    lemma_free_edge(edges, s, 0);
                }
            }
            mapping.set(l0, best.0);
            mapping.set(l1, best.1);
            proof { lemma_take(used@, best.0); }
            used.set(best.0, true);
            proof { lemma_take(used@, best.1); }
            used.set(best.1, true);
        } else if mapping[l0] != usize::MAX {
            let nb = neighbour_for(topology, &dist, mapping[l0], &used);
            proof { lemma_next_to(edges, mapping@[l0 as int], s, n as nat); }
            mapping.set(l1, nb);
            proof { lemma_take(used@, nb); }
            used.set(nb, true);
        } else {
            let nb = neighbour_for(topology, &dist, mapping[l1], &used);
            proof { lemma_next_to(edges, mapping@[l1 as int], s, n as nat); }
            mapping.set(l0, nb);
            proof { lemma_take(used@, nb); }
            used.set(nb, true);
        }
        k += 1;
    }
    proof {
        assert(pairs@.subrange(0, k as int) =~= pairs@);
    }
    let ghost placed: Allocation = (mapping@, taken(used@));
    let mut i: usize = 0;
    while i < logical_count
        invariant
            i <= logical_count,
            logical_count <= n,
            mapping@.len() == logical_count,
            used@.len() == n,
            fill_from(n as nat, placed, 0) == fill_from(n as nat, (mapping@, taken(used@)), i as nat),
        decreases logical_count - i,
    {
        if mapping[i] == usize::MAX {
            let f = first_free(n, &used);
            proof {
                lemma_free_from(n as nat, taken(used@), 0);
            }
            mapping.set(i, f);
            proof { lemma_take(used@, f); }
            used.set(f, true);
        }
        i += 1;
    }
    mapping
}

/// The coupling `free_edge` finds is one of `edges`, with both ends unused.
proof fn lemma_free_edge(edges: Seq<CouplingEdge>, used: Set<usize>, i: int)
    ensures
        free_edge(edges, used, i) matches Some(e) ==> edges.contains(e) && !used.contains(e.source) && !used.contains(e.target),
    decreases edges.len() - i,
{
    if 0 <= i < edges.len() && (used.contains(edges[i].source) || used.contains(edges[i].target)) {
        lemma_free_edge(edges, used, i + 1);
    }
}

/// Where `next_to` puts a qubit lies below `n`, when `n` is positive and couplings stay below it.
proof fn lemma_next_to(edges: Seq<CouplingEdge>, p0: usize, used: Set<usize>, n: nat)
    requires
        edges_within(edges, n),
        n >= 1,
        n <= usize::MAX,
    ensures
        next_to(edges, p0, used, n) < n,
{
    lemma_first_unused_in(neighbour_seq(edges, p0), used);
    lemma_neighbour_seq(edges, p0);
    lemma_free_from(n, used, 0);
    if let Some(p) = first_unused(neighbour_seq(edges, p0), used) {
        assert(adjacent(edges, p0, p));
        let k = choose|k: int| 0 <= k < edges.len() && #[trigger] crate::routing::topology::edge_joins(edges[k], p0, p);
    }
}


/// The logical qubits of a partial placement that have no physical qubit yet.
pub open spec fn unplaced(m: Seq<usize>) -> Set<int> {
    Set::new(|l: int| 0 <= l < m.len() && m[l] == usize::MAX)
}

/// A partial placement on `n` physical qubits where each placed logical qubit sits on a
/// taken qubit below `n`, no two share one, and as many qubits are taken as logical qubits
/// are placed.
pub open spec fn placement_sound(st: Allocation, n: nat) -> bool {
    &&& st.1.finite()
    &&& st.0.len() <= n
    &&& forall|l: int| 0 <= l < st.0.len() && st.0[l] != usize::MAX ==> #[trigger] st.0[l] < n && st.1.contains(st.0[l])
    &&& forall|a: int, b: int| 0 <= a < st.0.len() && 0 <= b < st.0.len() && a != b && st.0[a] != usize::MAX
        ==> #[trigger] st.0[a] != #[trigger] st.0[b]
    &&& st.1.len() + unplaced(st.0).len() == st.0.len()
}

proof fn lemma_unplaced_finite(m: Seq<usize>)
    ensures
        unplaced(m).finite(),
        unplaced(m).len() <= m.len(),
{
    vstd::set_lib::lemma_int_range(0, m.len() as int);
    vstd::set_lib::lemma_len_subset(unplaced(m), vstd::set_lib::set_int_range(0, m.len() as int));
}

/// Placing logical qubit `l` takes it out of the unplaced ones.
proof fn lemma_unplaced_update(m: Seq<usize>, l: int, v: usize)
    requires
        0 <= l < m.len(),
        m[l] == usize::MAX,
        v != usize::MAX,
    ensures
        unplaced(m.update(l, v)) == unplaced(m).remove(l),
        unplaced(m.update(l, v)).len() + 1 == unplaced(m).len(),
{
    assert(unplaced(m.update(l, v)) =~= unplaced(m).remove(l));
    lemma_unplaced_finite(m);
}

/// The free qubits from `p` on and the taken ones in that range make up the range.
proof fn lemma_free_count(n: nat, used: Set<usize>, p: nat)
    requires
        used.finite(),
        p <= n,
        n <= usize::MAX,
    ensures
        free_from(n, used, p).len() + used.filter(|x: usize| p <= x && x < n).len() == n - p,
    decreases n - p,
{
    let here = used.filter(|x: usize| p <= x && x < n);
    used.lemma_len_filter(|x: usize| p <= x && x < n);
    if p == n {
        assert(here =~= Set::empty());
    } else {
        lemma_free_count(n, used, p + 1);
        let rest = used.filter(|x: usize| p + 1 <= x && x < n);
        used.lemma_len_filter(|x: usize| p + 1 <= x && x < n);
        if used.contains(p as usize) {
            assert(here =~= rest.insert(p as usize));
        } else {
            assert(here =~= rest);
        }
    }
}

/// At least `n` minus the number of taken qubits are free.
proof fn lemma_free_at_least(n: nat, used: Set<usize>)
    requires
        used.finite(),
        n <= usize::MAX,
    ensures
        free_from(n, used, 0).len() >= n - used.len(),
{
    lemma_free_count(n, used, 0);
    used.lemma_len_filter(|x: usize| 0 <= x && x < n);
}

/// No coupling joins a qubit to itself.
pub open spec fn no_self_loops(edges: Seq<CouplingEdge>) -> bool {
    forall|i: int| 0 <= i < edges.len() ==> (#[trigger] edges[i]).source != edges[i].target
}

/// Giving the unplaced logical qubit `l` the free physical qubit `v` keeps a placement sound.
proof fn lemma_place_one(st: Allocation, n: nat, l: int, v: usize)
    requires
        placement_sound(st, n),
        0 <= l < st.0.len(),
        st.0[l] == usize::MAX,
        v < n,
        n <= usize::MAX,
        !st.1.contains(v),
    ensures
        placement_sound((st.0.update(l, v), st.1.insert(v)), n),
{
    let (m, used) = st;
    let m2 = m.update(l, v);
    lemma_unplaced_update(m, l, v);
    assert forall|a: int, b: int| 0 <= a < m2.len() && 0 <= b < m2.len() && a != b && m2[a] != usize::MAX
        implies #[trigger] m2[a] != #[trigger] m2[b] by {
        if a == l {
            if m[b] != usize::MAX {
                assert(used.contains(m[b]));
            }
        } else if b == l {
            assert(used.contains(m[a]));
        }
    }
}

/// The physical qubit `next_to` gives a logical qubit next to one placed on `p0` is free
/// and below `n`, when some logical qubit is still unplaced.
proof fn lemma_next_to_free(edges: Seq<CouplingEdge>, p0: usize, st: Allocation, n: nat)
    requires
        placement_sound(st, n),
        edges_within(edges, n),
        n <= usize::MAX,
        unplaced(st.0).len() >= 1,
    ensures
        next_to(edges, p0, st.1, n) < n,
        !st.1.contains(next_to(edges, p0, st.1, n)),
{
    let used = st.1;
    lemma_first_unused_in(neighbour_seq(edges, p0), used);
    lemma_neighbour_seq(edges, p0);
    lemma_free_from(n, used, 0);
    lemma_free_at_least(n, used);
    if let Some(p) = first_unused(neighbour_seq(edges, p0), used) {
        assert(adjacent(edges, p0, p));
        let k = choose|k: int| 0 <= k < edges.len() && #[trigger] crate::routing::topology::edge_joins(edges[k], p0, p);
        assert(edges_within(edges, n));
        assert(edges[k].source < n && edges[k].target < n);
    } else {
        assert(free_from(n, used, 0).len() >= 1);
        assert(free_from(n, used, 0)[0] < n);
    }
}

/// Placing a pair of distinct logical qubits keeps a placement sound, and always succeeds.
proof fn lemma_place_pair_sound(edges: Seq<CouplingEdge>, n: nat, st: Allocation, l0: usize, l1: usize)
    requires
        placement_sound(st, n),
        edges_within(edges, n),
        no_self_loops(edges),
        n <= usize::MAX,
        l0 != l1,
        l0 < st.0.len(),
        l1 < st.0.len(),
    ensures
        place_pair(edges, n, st, l0, l1) is Some,
        placement_sound(place_pair(edges, n, st, l0, l1)->0, n),
        (place_pair(edges, n, st, l0, l1)->0).0.len() == st.0.len(),
{
    let (m, used) = st;
    lemma_unplaced_finite(m);
    if m[l0 as int] != usize::MAX && m[l1 as int] != usize::MAX {
    } else if m[l0 as int] == usize::MAX && m[l1 as int] == usize::MAX {
        assert(set![l0 as int, l1 as int].subset_of(unplaced(m)));
        vstd::set_lib::lemma_len_subset(set![l0 as int, l1 as int], unplaced(m));
        assert(set![l0 as int, l1 as int].len() == 2) by {
            assert(set![l0 as int, l1 as int] =~= set![l0 as int].insert(l1 as int));
        }
        lemma_free_from(n, used, 0);
        lemma_free_at_least(n, used);
        lemma_free_edge(edges, used, 0);
        let (a, b) = best_pair(edges, used, n)->0;
        match free_edge(edges, used, 0) {
            Some(e) => {
                let k = choose|k: int| 0 <= k < edges.len() && edges[k] == e;
                assert(edges[k].source != edges[k].target);
                assert(edges[k].source < n && edges[k].target < n);
                assert(!used.contains(a) && !used.contains(b));
            },
            None => {
                let f = free_from(n, used, 0);
                assert(f.len() >= 2);
                assert(f[0] < f[1]);
            },
        }
        lemma_place_one(st, n, l0 as int, a);
        let st1 = (m.update(l0 as int, a), used.insert(a));
        lemma_place_one(st1, n, l1 as int, b);
    } else if m[l0 as int] != usize::MAX {
        assert(unplaced(m).contains(l1 as int));
        lemma_next_to_free(edges, m[l0 as int], st, n);
        lemma_place_one(st, n, l1 as int, next_to(edges, m[l0 as int], used, n));
    } else {
        assert(unplaced(m).contains(l0 as int));
        lemma_next_to_free(edges, m[l1 as int], st, n);
        lemma_place_one(st, n, l0 as int, next_to(edges, m[l1 as int], used, n));
    }
}

proof fn lemma_place_all_sound(edges: Seq<CouplingEdge>, n: nat, st: Allocation, list: Seq<Interaction>)
    requires
        placement_sound(st, n),
        edges_within(edges, n),
        no_self_loops(edges),
        n <= usize::MAX,
        forall|i: int| 0 <= i < list.len() ==> (#[trigger] list[i]).0 < list[i].1 && list[i].1 < st.0.len(),
    ensures
        place_all(edges, n, st, list) is Some,
        placement_sound(place_all(edges, n, st, list)->0, n),
        (place_all(edges, n, st, list)->0).0.len() == st.0.len(),
    decreases list.len(),
{
    if list.len() > 0 {
        let t = list.drop_last();
        assert forall|i: int| 0 <= i < t.len() implies (#[trigger] t[i]).0 < t[i].1 && t[i].1 < st.0.len() by {
            assert(t[i] == list[i]);
        }
        lemma_place_all_sound(edges, n, st, t);
        let s1 = place_all(edges, n, st, t)->0;
        let e = list[list.len() - 1];
        lemma_place_pair_sound(edges, n, s1, e.0, e.1);
    }
}

proof fn lemma_fill_sound(n: nat, st: Allocation, i: nat)
    requires
        placement_sound(st, n),
        n <= usize::MAX,
        i <= st.0.len(),
        forall|l: int| 0 <= l < i ==> st.0[l] != usize::MAX,
    ensures
        fill_from(n, st, i).len() == st.0.len(),
        forall|l: int| 0 <= l < fill_from(n, st, i).len() ==> #[trigger] fill_from(n, st, i)[l] < n,
        fill_from(n, st, i).no_duplicates(),
    decreases st.0.len() - i,
{
    let (m, used) = st;
    if i >= m.len() {
        assert forall|l: int| 0 <= l < m.len() implies #[trigger] m[l] < n by {}
        assert forall|a: int, b: int| 0 <= a < m.len() && 0 <= b < m.len() && a != b implies m[a] != m[b] by {}
    } else if m[i as int] == usize::MAX {
        assert(unplaced(m).contains(i as int));
        lemma_unplaced_finite(m);
        lemma_free_from(n, used, 0);
        lemma_free_at_least(n, used);
        let p = first_free_qubit(n, used);
        assert(free_from(n, used, 0).len() >= 1);
        lemma_place_one(st, n, i as int, p);
        lemma_fill_sound(n, (m.update(i as int, p), used.insert(p)), i + 1);
    } else {
        lemma_fill_sound(n, st, i + 1);
    }
}

/// No two-qubit gate or Toffoli among `gs` names the same logical qubit in both of its
/// first two places.
pub open spec fn pairs_distinct(gs: Seq<SpecGate>, keys: Seq<BitKey>) -> bool {
    forall|k: int| 0 <= k < gs.len() ==> match #[trigger] two_qubit_pair(gs[k], keys) {
        Some((a, b)) => a != b,
        None => true,
    }
}

proof fn lemma_pair_in_range(g: SpecGate, keys: Seq<BitKey>)
    ensures
        two_qubit_pair(g, keys) matches Some((a, b)) ==> 0 <= a < keys.len() && 0 <= b < keys.len(),
{
}

/// Each entry of a tallied list is the tallied pair or the entry that stood there before.
proof fn lemma_tally_entries(list: Seq<Interaction>, l0: usize, l1: usize)
    ensures
        forall|k: int| 0 <= k < tally(list, l0, l1).len() ==> {
            let e = #[trigger] tally(list, l0, l1)[k];
            (e.0 == l0 && e.1 == l1) || (k < list.len() && e == list[k])
        },
{
    if exists|i: int| 0 <= i < list.len() && list[i].0 == l0 && list[i].1 == l1 {
        let i = choose|i: int| 0 <= i < list.len() && list[i].0 == l0 && list[i].1 == l1;
        assert(tally(list, l0, l1)[i].0 == l0);
    }
}

proof fn lemma_interactions_ordered(gs: Seq<SpecGate>, keys: Seq<BitKey>)
    requires
        pairs_distinct(gs, keys),
        keys.len() <= usize::MAX,
    ensures
        forall|i: int| 0 <= i < interactions(gs, keys).len()
            ==> (#[trigger] interactions(gs, keys)[i]).0 < interactions(gs, keys)[i].1 && interactions(gs, keys)[i].1 < keys.len(),
    decreases gs.len(),
{
    if gs.len() > 0 {
        let t = gs.drop_last();
        assert forall|k: int| 0 <= k < t.len() implies match #[trigger] two_qubit_pair(t[k], keys) {
            Some((a, b)) => a != b,
            None => true,
        } by {
            assert(t[k] == gs[k]);
        }
        lemma_interactions_ordered(t, keys);
        let list = interactions(t, keys);
        lemma_pair_in_range(gs.last(), keys);
        assert(two_qubit_pair(gs[gs.len() - 1], keys) == two_qubit_pair(gs.last(), keys));
        if let Some((a, b)) = two_qubit_pair(gs.last(), keys) {
            let l0 = if a <= b { a as usize } else { b as usize };
            let l1 = if a <= b { b as usize } else { a as usize };
            assert(l0 < l1 && l1 < keys.len());
            let r = tally(list, l0, l1);
            lemma_tally_entries(list, l0, l1);
            assert forall|i: int| 0 <= i < r.len() implies (#[trigger] r[i]).0 < r[i].1 && r[i].1 < keys.len() by {
                if i < list.len() && r[i] == list[i] {
                }
            }
        }
    }
}

/// The allocator gives every logical qubit its own physical qubit, below the topology's
/// qubit count, and never runs out of free qubits, when the circuit fits on the topology,
/// no coupling joins a qubit to itself, and no gate names one logical qubit twice in its
/// first two places.
pub proof fn lemma_allocation_valid(circuit: Circuit, topology: HardwareTopology)
    requires
        names_distinct(circuit.qregs@),
        total_size(circuit.qregs@) <= topology.qubit_count,
        edges_within(topology.coupling_map@, topology.qubit_count as nat),
        no_self_loops(topology.coupling_map@),
        pairs_distinct(gates_view(circuit.gates@), logical_keys(circuit.qregs@)),
    ensures
        allocation(circuit, topology) is Some,
        (allocation(circuit, topology)->0).len() == total_size(circuit.qregs@),
        forall|l: int| 0 <= l < (allocation(circuit, topology)->0).len()
            ==> #[trigger] (allocation(circuit, topology)->0)[l] < topology.qubit_count,
        (allocation(circuit, topology)->0).no_duplicates(),
{
    let keys = logical_keys(circuit.qregs@);
    let n = topology.qubit_count as nat;
    let edges = topology.coupling_map@;
    lemma_logical_keys(circuit.qregs@);
    let inter = interactions(gates_view(circuit.gates@), keys);
    lemma_interactions_ordered(gates_view(circuit.gates@), keys);
    let list = by_count(inter);
    lemma_by_count(inter);
    assert forall|i: int| 0 <= i < list.len() implies (#[trigger] list[i]).0 < list[i].1 && list[i].1 < keys.len() by {
        assert(inter.contains(list[i]));
        let j = choose|j: int| 0 <= j < inter.len() && inter[j] == list[i];
        assert(inter[j].0 < inter[j].1);
    }
    let start: Allocation = (Seq::new(keys.len(), |i: int| usize::MAX), Set::empty());
    assert(unplaced(start.0) =~= vstd::set_lib::set_int_range(0, keys.len() as int));
    vstd::set_lib::lemma_int_range(0, keys.len() as int);
    assert(placement_sound(start, n));
    lemma_place_all_sound(edges, n, start, list);
    let st = place_all(edges, n, start, list)->0;
    lemma_fill_sound(n, st, 0);
}

/// Whether no coupling joins a qubit to itself and every coupling stays below `n`.
fn couplings_sound(topology: &HardwareTopology) -> (b: bool)
    ensures
        b == (edges_within(topology.coupling_map@, topology.qubit_count as nat) && no_self_loops(topology.coupling_map@)),
{
    let mut i: usize = 0;
    while i < topology.coupling_map.len()
        invariant
            i <= topology.coupling_map@.len(),
            forall|k: int| 0 <= k < i ==> (#[trigger] topology.coupling_map@[k]).source < topology.qubit_count
                && topology.coupling_map@[k].target < topology.qubit_count
                && topology.coupling_map@[k].source != topology.coupling_map@[k].target,
        decreases topology.coupling_map@.len() - i,
    {
        let e = topology.coupling_map[i];
        if e.source >= topology.qubit_count || e.target >= topology.qubit_count || e.source == e.target {
            return false;
        }
        i += 1;
    }
    true
}

/// Whether no two-qubit gate or Toffoli of `gates` names one logical qubit twice in its
/// first two places.
fn gate_pairs_distinct(gates: &Vec<Gate>, keys: &Vec<QubitRef>) -> (b: bool)
    requires
        keys_distinct(keys_of(keys@)),
    ensures
        b == pairs_distinct(gates_view(gates@), keys_of(keys@)),
{
    let ghost gs = gates_view(gates@);
    let mut i: usize = 0;
    while i < gates.len()
        invariant
            i <= gates@.len(),
            gs == gates_view(gates@),
            keys_distinct(keys_of(keys@)),
            forall|k: int| 0 <= k < i ==> match #[trigger] two_qubit_pair(gs[k], keys_of(keys@)) {
                Some((a, b)) => a != b,
                None => true,
            },
        decreases gates@.len() - i,
    {
        match two_qubit_logical_indices(&gates[i], keys) {
            Some((a, b)) => {
                if a == b {
                    proof { assert(gs[i as int] == gates@[i as int]@); }
                    return false;
                }
            },
            None => {},
        }
        proof { assert(gs[i as int] == gates@[i as int]@); }
        i += 1;
    }
    true
}

/// Places the circuit's logical qubits on the topology, after checking what makes the
/// placement succeed with every logical qubit on its own physical qubit: the circuit fits,
/// every coupling joins two distinct qubits of the topology, and no gate names one logical
/// qubit twice in its first two places. Nothing when a check fails.
pub fn try_allocate_qubits(circuit: &Circuit, topology: &HardwareTopology) -> (r: Option<Vec<usize>>)
    requires
        total_size(circuit.qregs@) <= usize::MAX,
    ensures
        r is Some <==> ({
            &&& total_size(circuit.qregs@) <= topology.qubit_count
            &&& topology.coupling_map@.len() < usize::MAX / 2
            &&& edges_within(topology.coupling_map@, topology.qubit_count as nat)
            &&& no_self_loops(topology.coupling_map@)
            &&& pairs_distinct(gates_view(circuit.gates@), logical_keys(circuit.qregs@))
        }),
        r matches Some(m) ==> {
            &&& allocation(*circuit, *topology) is Some
            &&& m@ == allocation(*circuit, *topology)->0
            &&& m@.len() == total_size(circuit.qregs@)
            &&& (forall|l: int| 0 <= l < m@.len() ==> #[trigger] m@[l] < topology.qubit_count)
            &&& m@.no_duplicates()
        },
{
    if circuit.qubit_count() > topology.qubit_count || topology.coupling_map.len() >= usize::MAX / 2 {
        return None;
    }
    if !couplings_sound(topology) {
        return None;
    }
    let keys = build_logical_index(circuit);
    if !gate_pairs_distinct(&circuit.gates, &keys) {
        return None;
    }
    proof {
        use_type_invariant(&circuit.qregs);
        lemma_allocation_valid(*circuit, *topology);
    }
    Some(allocate_qubits(circuit, topology))
}

} // verus!
