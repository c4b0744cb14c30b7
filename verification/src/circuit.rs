use vstd::prelude::*;
use crate::dag::{compute_depth, spec_depth};
use crate::gate::{Gate, SpecGate, gates_view};

verus! {

/// A named register and its size.
#[derive(Debug)]
pub struct Register {
    pub name: String,
    pub size: usize,
}

/// Registers by name, in the order they were first declared; no name occurs twice.
#[derive(Debug)]
pub struct RegisterMap {
    entries: Vec<Register>,
}

/// The entries of a register map: each name with its size.
pub type RegisterEntries = Seq<(Seq<char>, usize)>;

/// No name occurs twice.
pub open spec fn names_distinct(s: RegisterEntries) -> bool {
    forall|i: int, j: int| 0 <= i < s.len() && 0 <= j < s.len() && i != j ==> #[trigger] s[i].0 != #[trigger] s[j].0
}

/// The size registered under `name`, if any.
pub open spec fn lookup(s: RegisterEntries, name: Seq<char>) -> Option<usize>
    decreases s.len(),
{
    if s.len() == 0 {
        None
    } else if s.last().0 == name {
        Some(s.last().1)
    } else {
        lookup(s.drop_last(), name)
    }
}

/// The sum of all sizes.
pub open spec fn total_size(s: RegisterEntries) -> nat
    decreases s.len(),
{
    if s.len() == 0 {
        0
    } else {
        total_size(s.drop_last()) + s.last().1 as nat
    }
}

/// The entries after `name` is given `size`: an existing entry keeps its place, a new one goes last.
pub open spec fn inserted(s: RegisterEntries, name: Seq<char>, size: usize) -> RegisterEntries {
    if exists|i: int| 0 <= i < s.len() && s[i].0 == name {
        s.update(choose|i: int| 0 <= i < s.len() && s[i].0 == name, (name, size))
    } else {
        s.push((name, size))
    }
}

impl View for RegisterMap {
    type V = RegisterEntries;

    closed spec fn view(&self) -> RegisterEntries {
        self.entries@.map_values(|r: Register| (r.name@, r.size))
    }
}

pub proof fn lemma_lookup_index(s: RegisterEntries, name: Seq<char>)
    requires
        names_distinct(s),
    ensures
        lookup(s, name) is None <==> (forall|i: int| 0 <= i < s.len() ==> s[i].0 != name),
        forall|i: int| 0 <= i < s.len() && s[i].0 == name ==> lookup(s, name) == Some(s[i].1),
    decreases s.len(),
{
    if s.len() > 0 {
        let t = s.drop_last();
        assert(names_distinct(t));
        lemma_lookup_index(t, name);
        if s.last().0 != name {
            assert forall|i: int| 0 <= i < s.len() && s[i].0 == name implies lookup(s, name) == Some(s[i].1) by {
                assert(i < s.len() - 1);
                assert(t[i] == s[i]);
            }
        }
    }
}

impl RegisterMap {
    #[verifier::type_invariant]
    pub open spec fn inv(self) -> bool {
        names_distinct(self@)
    }

    pub fn new() -> (m: Self)
        ensures
            m@ == Seq::<(Seq<char>, usize)>::empty(),
    {
        let m = RegisterMap { entries: Vec::new() };
        proof { assert(m@ =~= Seq::<(Seq<char>, usize)>::empty()); }
        m
    }

    pub fn len(&self) -> (n: usize)
        ensures
            n == self@.len(),
    {
        self.entries.len()
    }

    /// The name and size of the `i`-th register.
    pub fn entry(&self, i: usize) -> (r: (&str, usize))
        requires
            i < self@.len(),
        ensures
            r.0@ == self@[i as int].0,
            r.1 == self@[i as int].1,
    {
        (self.entries[i].name.as_str(), self.entries[i].size)
    }

    fn position(&self, name: &str) -> (r: Option<usize>)
        ensures
            r matches Some(i) ==> i < self@.len() && self@[i as int].0 == name@,
            r is None ==> forall|i: int| 0 <= i < self@.len() ==> self@[i].0 != name@,
    {
        let target = name.to_owned();
        let mut i: usize = 0;
        while i < self.entries.len()
            invariant
                i <= self.entries.len(),
                target@ == name@,
                forall|j: int| 0 <= j < i ==> self@[j].0 != name@,
            decreases self.entries.len() - i,
        {
            if self.entries[i].name == target {
                return Some(i);
            }
            i += 1;
        }
        None
    }

    /// Sets the size of register `name`, declaring it if it is new.
    pub fn insert(&mut self, name: &str, size: usize)
        ensures
            final(self)@ == inserted(old(self)@, name@, size),
    {
        proof { use_type_invariant(&*self); }
        let ghost s = self@;
        match self.position(name) {
            Some(i) => {
                proof {
                    assert forall|j: int| 0 <= j < s.len() && s[j].0 == name@ implies j == i by {}
                }
                let reg = Register { name: name.to_owned(), size };
                let mut entries: Vec<Register> = Vec::new();
                std::mem::swap(&mut entries, &mut self.entries);
                entries.set(i, reg);
                proof {
                    let v = entries@.map_values(|r: Register| (r.name@, r.size));
                    assert(v =~= s.update(i as int, (name@, size)));
                    assert(v =~= inserted(s, name@, size));
                    assert(names_distinct(v));
                }
                self.entries = entries;
            },
            None => {
                let reg = Register { name: name.to_owned(), size };
                let mut entries: Vec<Register> = Vec::new();
                std::mem::swap(&mut entries, &mut self.entries);
                entries.push(reg);
                proof {
                    let v = entries@.map_values(|r: Register| (r.name@, r.size));
                    assert(v =~= s.push((name@, size)));
                    assert(v =~= inserted(s, name@, size));
                    assert(names_distinct(v));
                }
                self.entries = entries;
            },
        }
    }

    /// The size of register `name`, if it is declared.
    pub fn get(&self, name: &str) -> (r: Option<usize>)
        ensures
            r == lookup(self@, name@),
    {
        proof {
            use_type_invariant(self);
            lemma_lookup_index(self@, name@);
        }
        match self.position(name) {
            Some(i) => Some(self.entries[i].size),
            None => None,
        }
    }

    pub fn contains_key(&self, name: &str) -> (b: bool)
        ensures
            b == (lookup(self@, name@) is Some),
    {
        self.get(name).is_some()
    }

    /// The sum of all register sizes.
    pub fn total(&self) -> (n: usize)
        requires
            total_size(self@) <= usize::MAX,
        ensures
            n == total_size(self@),
    {
        let mut n: usize = 0;
        let mut i: usize = 0;
        while i < self.entries.len()
            invariant
                i <= self.entries.len(),
                n == total_size(self@.subrange(0, i as int)),
                total_size(self@) <= usize::MAX,
            decreases self.entries.len() - i,
        {
            proof {
                assert(self@.subrange(0, i + 1).drop_last() =~= self@.subrange(0, i as int));
                lemma_total_size_prefix(self@, i as int + 1);
            }
            n = n + self.entries[i].size;
            i += 1;
        }
        proof { assert(self@.subrange(0, i as int) =~= self@); }
        n
    }
}

impl Clone for RegisterMap {
    fn clone(&self) -> (r: Self)
        ensures
            r@ == self@,
    {
        proof { use_type_invariant(self); }
        let mut entries: Vec<Register> = Vec::new();
        let mut i: usize = 0;
        while i < self.entries.len()
            invariant
                i <= self.entries.len(),
                entries@.len() == i,
                forall|j: int| 0 <= j < i ==> (#[trigger] entries@[j]).name@ == self.entries@[j].name@
                    && entries@[j].size == self.entries@[j].size,
            decreases self.entries.len() - i,
        {
            let reg = Register { name: self.entries[i].name.clone(), size: self.entries[i].size };
            entries.push(reg);
            i += 1;
        }
        proof {
            assert(entries@.map_values(|r: Register| (r.name@, r.size)) =~= self@);
        }
        RegisterMap { entries }
    }
}

/// A prefix never holds more than the whole.
pub proof fn lemma_total_size_prefix(s: RegisterEntries, k: int)
    requires
        0 <= k <= s.len(),
    ensures
        total_size(s.subrange(0, k)) <= total_size(s),
    decreases s.len() - k,
{
    if k < s.len() {
        lemma_total_size_prefix(s, k + 1);
        assert(s.subrange(0, k + 1).drop_last() =~= s.subrange(0, k));
    } else {
        assert(s.subrange(0, k) =~= s);
    }
}

/// Where a circuit came from.
#[derive(Debug)]
pub struct CircuitMetadata {
    pub source: Option<String>,
    pub version: Option<String>,
}

impl CircuitMetadata {
    pub fn new() -> (m: Self)
        ensures
            m.source is None,
            m.version is None,
    {
        CircuitMetadata { source: None, version: None }
    }
}

/// A quantum circuit: its registers and its list of gates.
#[derive(Debug)]
pub struct Circuit {
    pub name: String,
    pub qregs: RegisterMap,
    pub cregs: RegisterMap,
    pub gates: Vec<Gate>,
    pub metadata: CircuitMetadata,
}

/// The number of gates that are not barriers.
pub open spec fn count_non_barrier(gs: Seq<SpecGate>) -> nat
    decreases gs.len(),
{
    if gs.len() == 0 {
        0
    } else {
        count_non_barrier(gs.drop_last()) + if gs.last() is Barrier { 0nat } else { 1nat }
    }
}

/// The number of two-qubit gates (CX, CZ and SWAP).
pub open spec fn count_two_qubit(gs: Seq<SpecGate>) -> nat
    decreases gs.len(),
{
    if gs.len() == 0 {
        0
    } else {
        count_two_qubit(gs.drop_last()) + if gs.last().is_two_qubit() { 1nat } else { 0nat }
    }
}

/// A count of a prefix never exceeds the length of the prefix.
pub proof fn lemma_counts_bounded(gs: Seq<SpecGate>)
    ensures
        count_non_barrier(gs) <= gs.len(),
        count_two_qubit(gs) <= gs.len(),
    decreases gs.len(),
{
    if gs.len() > 0 {
        lemma_counts_bounded(gs.drop_last());
    }
}

impl Circuit {
    pub fn new(name: &str) -> (c: Self)
        ensures
            c.name@ == name@,
            c.qregs@.len() == 0,
            c.cregs@.len() == 0,
            c.gates@.len() == 0,
            c.metadata.source is None,
            c.metadata.version is None,
    {
        Circuit {
            name: name.to_owned(),
            qregs: RegisterMap::new(),
            cregs: RegisterMap::new(),
            gates: Vec::new(),
            metadata: CircuitMetadata::new(),
        }
    }

    /// Total number of qubits over all quantum registers.
    pub fn qubit_count(&self) -> (n: usize)
        requires
            total_size(self.qregs@) <= usize::MAX,
        ensures
            n == total_size(self.qregs@),
    {
        self.qregs.total()
    }

    /// Number of gates, barriers not counted.
    pub fn gate_count(&self) -> (n: usize)
        ensures
            n == count_non_barrier(gates_view(self.gates@)),
    {
        let mut n: usize = 0;
        let mut i: usize = 0;
        while i < self.gates.len()
            invariant
                i <= self.gates.len(),
                n == count_non_barrier(gates_view(self.gates@.subrange(0, i as int))),
            decreases self.gates.len() - i,
        {
            proof {
                let p = gates_view(self.gates@.subrange(0, i + 1));
                assert(p.drop_last() =~= gates_view(self.gates@.subrange(0, i as int)));
                lemma_counts_bounded(p);
            }
            match &self.gates[i] {
                Gate::Barrier(_) => {},
                _ => { n = n + 1; },
            }
            i += 1;
        }
        proof { assert(self.gates@.subrange(0, i as int) =~= self.gates@); }
        n
    }

    /// Number of CX, CZ and SWAP gates.
    pub fn two_qubit_gate_count(&self) -> (n: usize)
        ensures
            n == count_two_qubit(gates_view(self.gates@)),
    {
        let mut n: usize = 0;
        let mut i: usize = 0;
        while i < self.gates.len()
            invariant
                i <= self.gates.len(),
                n == count_two_qubit(gates_view(self.gates@.subrange(0, i as int))),
            decreases self.gates.len() - i,
        {
            proof {
                let p = gates_view(self.gates@.subrange(0, i + 1));
                assert(p.drop_last() =~= gates_view(self.gates@.subrange(0, i as int)));
                lemma_counts_bounded(p);
            }
            if self.gates[i].is_two_qubit() {
                n = n + 1;
            }
            i += 1;
        }
        proof { assert(self.gates@.subrange(0, i as int) =~= self.gates@); }
        n
    }

    /// Circuit depth: the length of the longest chain of dependent gates.
    pub fn depth(&self) -> (d: usize)
        ensures
            d == spec_depth(gates_view(self.gates@)),
    {
        compute_depth(self.gates.as_slice())
    }

    pub fn push(&mut self, gate: Gate)
        ensures
            final(self).gates@ == old(self).gates@.push(gate),
            final(self).name == old(self).name,
            final(self).qregs == old(self).qregs,
            final(self).cregs == old(self).cregs,
            final(self).metadata == old(self).metadata,
    {
        self.gates.push(gate);
    }
}

} // verus!
