use vstd::prelude::*;
use crate::angle::{FloatOp, arith_ok};
use crate::circuit::Circuit;
use crate::gate::{Angle, Gate, SpecGate, take_gate};
use crate::passes::cancellation::{are_inverse, spec_are_inverse};
use crate::passes::removal::{only_removes, lemma_only_removes_drop, lemma_only_removes_push, lemma_only_removes_refl, lemma_only_removes_trans};
use crate::passes::report::{PassReport, removed_count, same_frame};
use crate::qubit::{BitKey, QubitRef};
use crate::text::{count_message, spec_decimal};

verus! {

/// Reorders gates that commute to bring cancellable pairs together and cancels them:
/// a gate is cancelled with a later inverse gate at most seven places on, when every
/// gate still standing between them commutes with it.
pub struct CommutationAnalysis;

/// The variant of a gate, as a number.
pub open spec fn kind(g: SpecGate) -> nat {
    match g {
        SpecGate::H(_) => 0,
        SpecGate::X(_) => 1,
        SpecGate::Y(_) => 2,
        SpecGate::Z(_) => 3,
        SpecGate::S(_) => 4,
        SpecGate::Sdg(_) => 5,
        SpecGate::T(_) => 6,
        SpecGate::Tdg(_) => 7,
        SpecGate::Sx(_) => 8,
        SpecGate::Sxdg(_) => 9,
        SpecGate::Rx(_, _) => 10,
        SpecGate::Ry(_, _) => 11,
        SpecGate::Rz(_, _) => 12,
        SpecGate::U1(_, _) => 13,
        SpecGate::U2(_, _, _) => 14,
        SpecGate::U3(_, _, _, _) => 15,
        SpecGate::Cx(_, _) => 16,
        SpecGate::Cz(_, _) => 17,
        SpecGate::Swap(_, _) => 18,
        SpecGate::Ccx(_, _, _) => 19,
        SpecGate::Measure(_, _) => 20,
        SpecGate::Barrier(_) => 21,
        SpecGate::Reset(_) => 22,
        SpecGate::Custom { .. } => 23,
    }
}

/// The qubit of a gate diagonal in the computational basis: Z, S, Sdg, T, Tdg, Rz, U1.
pub open spec fn diagonal_on(g: SpecGate) -> Option<BitKey> {
    match g {
        SpecGate::Z(q) | SpecGate::S(q) | SpecGate::Sdg(q) | SpecGate::T(q) | SpecGate::Tdg(q)
        | SpecGate::Rz(_, q) | SpecGate::U1(_, q) => Some(q),
        _ => None,
    }
}

/// The qubit of a rotation about the X axis: X, Rx.
pub open spec fn x_axis_on(g: SpecGate) -> Option<BitKey> {
    match g {
        SpecGate::X(q) | SpecGate::Rx(_, q) => Some(q),
        _ => None,
    }
}

/// The qubit of a rotation about the Y axis: Y, Ry.
pub open spec fn y_axis_on(g: SpecGate) -> Option<BitKey> {
    match g {
        SpecGate::Y(q) | SpecGate::Ry(_, q) => Some(q),
        _ => None,
    }
}

/// `a` is diagonal on the control of the CX `b`, or X or Rx on its target.
pub open spec fn passes_cx(a: SpecGate, b: SpecGate) -> bool {
    match b {
        SpecGate::Cx(c, t) => diagonal_on(a) == Some(c) || x_axis_on(a) == Some(t),
        _ => false,
    }
}

/// One of the listed commutation rules applies: two rotations about one axis on one qubit
/// (diagonal gates Z, S, Sdg, T, Tdg, Rz, U1; X and Rx; Y and Ry), a diagonal gate and a CX
/// on its control, X or Rx and a CX on its target; in either order.
pub open spec fn commutation_rule(a: SpecGate, b: SpecGate) -> bool {
    ||| diagonal_on(a) is Some && diagonal_on(a) == diagonal_on(b)
    ||| x_axis_on(a) is Some && x_axis_on(a) == x_axis_on(b)
    ||| y_axis_on(a) is Some && y_axis_on(a) == y_axis_on(b)
    ||| passes_cx(a, b)
    ||| passes_cx(b, a)
}

/// The gates act on no common qubit.
pub open spec fn disjoint_qubits(a: SpecGate, b: SpecGate) -> bool {
    forall|i: int, j: int| 0 <= i < a.qubits().len() && 0 <= j < b.qubits().len() ==> a.qubits()[i] != b.qubits()[j]
}

/// A kind of gate without parameters: H, X, Y, Z, S, Sdg, T, Tdg, SX, SXdg, CX, CZ, SWAP, CCX.
pub open spec fn parameter_free(k: nat) -> bool {
    k <= 9 || (16 <= k && k <= 19)
}

/// `a` and `b` are the same parameter-free gate on the same qubits, in the same order.
pub open spec fn same_gate(a: SpecGate, b: SpecGate) -> bool {
    kind(a) == kind(b) && parameter_free(kind(a)) && a.qubits() == b.qubits()
}

/// `a` and `b` can be swapped without changing what the circuit does: they share no qubit,
/// a commutation rule applies, or they are the same gate.
pub open spec fn spec_commutes(a: SpecGate, b: SpecGate) -> bool {
    disjoint_qubits(a, b) || commutation_rule(a, b) || same_gate(a, b)
}

/// Commuting is symmetric.
pub proof fn lemma_commutes_symmetric(a: SpecGate, b: SpecGate)
    ensures
        spec_commutes(a, b) == spec_commutes(b, a),
{
    if disjoint_qubits(a, b) {
        assert forall|i: int, j: int| 0 <= i < b.qubits().len() && 0 <= j < a.qubits().len() implies b.qubits()[i] != a.qubits()[j] by {
            assert(a.qubits()[j] != b.qubits()[i]);
        }
    }
    if disjoint_qubits(b, a) {
        assert forall|i: int, j: int| 0 <= i < a.qubits().len() && 0 <= j < b.qubits().len() implies a.qubits()[i] != b.qubits()[j] by {
            assert(b.qubits()[j] != a.qubits()[i]);
        }
    }
}

/// Gates on disjoint qubits commute; on one qubit, diagonal gates commute with each other
/// (Z, S, T, Rz in any order), as do X and Rx; Z, S, T and Rz commute with a CX on its
/// control, X and Rx with a CX on its target, in either order; two CX commute only when
/// they are the same gate, so CX(a, b) and CX(b, a) do not.
pub proof fn lemma_commutation_rules(a: SpecGate, b: SpecGate, theta: Angle, phi: Angle, c: BitKey, t: BitKey)
    requires
        c != t,
    ensures
        disjoint_qubits(a, b) ==> spec_commutes(a, b),
        spec_commutes(SpecGate::Z(c), SpecGate::Rz(theta, c)),
        spec_commutes(SpecGate::Rz(theta, c), SpecGate::Rz(phi, c)),
        spec_commutes(SpecGate::S(c), SpecGate::T(c)),
        spec_commutes(SpecGate::T(c), SpecGate::S(c)),
        spec_commutes(SpecGate::Rz(theta, c), SpecGate::S(c)),
        spec_commutes(SpecGate::X(c), SpecGate::Rx(theta, c)),
        spec_commutes(SpecGate::Rz(theta, c), SpecGate::Cx(c, t)),
        spec_commutes(SpecGate::Cx(c, t), SpecGate::Rz(theta, c)),
        spec_commutes(SpecGate::S(c), SpecGate::Cx(c, t)),
        spec_commutes(SpecGate::Cx(c, t), SpecGate::Z(c)),
        spec_commutes(SpecGate::X(t), SpecGate::Cx(c, t)),
        spec_commutes(SpecGate::Cx(c, t), SpecGate::Rx(theta, t)),
        spec_commutes(SpecGate::Cx(c, t), SpecGate::Cx(c, t)),
        !spec_commutes(SpecGate::Cx(c, t), SpecGate::Cx(t, c)),
        !spec_commutes(SpecGate::X(c), SpecGate::Cx(c, t)),
        !spec_commutes(SpecGate::Z(t), SpecGate::Cx(c, t)),
{
    let (x, y) = (SpecGate::Cx(c, t), SpecGate::Cx(t, c));
    assert(!disjoint_qubits(x, y)) by {
        assert(x.qubits()[0] == y.qubits()[1]);
    }
    assert(x.qubits()[0] != y.qubits()[0]);
    assert(!disjoint_qubits(SpecGate::X(c), x)) by {
        assert(SpecGate::X(c).qubits()[0] == x.qubits()[0]);
    }
    assert(!disjoint_qubits(SpecGate::Z(t), x)) by {
        assert(SpecGate::Z(t).qubits()[0] == x.qubits()[1]);
    }
}

/// A single-qubit gate on the target of a CX commutes with it only when it is X or Rx, a
/// rotation about the X axis; on the control, only when it is diagonal (Z, S, Sdg, T, Tdg,
/// Rz, U1). This holds in either order. A CX never commutes with a single-qubit gate of
/// any other kind on one of its qubits: H, Y, Ry, SX, SXdg, U2, U3, measurements and resets.
pub proof fn lemma_cx_neighbours(g: SpecGate, c: BitKey, t: BitKey)
    requires
        c != t,
        g.qubits().len() == 1,
        g !is Barrier,
        g !is Custom,
    ensures
        g.qubits()[0] == t && (spec_commutes(g, SpecGate::Cx(c, t)) || spec_commutes(SpecGate::Cx(c, t), g))
            ==> g is X || g is Rx,
        g.qubits()[0] == c && (spec_commutes(g, SpecGate::Cx(c, t)) || spec_commutes(SpecGate::Cx(c, t), g))
            ==> g is Z || g is S || g is Sdg || g is T || g is Tdg || g is Rz || g is U1,
{
    let x = SpecGate::Cx(c, t);
    if g.qubits()[0] == t {
        assert(!disjoint_qubits(g, x)) by {
            assert(g.qubits()[0] == x.qubits()[1]);
        }
        assert(!disjoint_qubits(x, g)) by {
            assert(x.qubits()[1] == g.qubits()[0]);
        }
    }
    if g.qubits()[0] == c {
        assert(!disjoint_qubits(g, x)) by {
            assert(g.qubits()[0] == x.qubits()[0]);
        }
        assert(!disjoint_qubits(x, g)) by {
            assert(x.qubits()[0] == g.qubits()[0]);
        }
    }
}

fn gate_kind(g: &Gate) -> (k: u8)
    ensures
        k as nat == kind(g@),
{
    match g {
        Gate::H(_) => 0,
        Gate::X(_) => 1,
        Gate::Y(_) => 2,
        Gate::Z(_) => 3,
        Gate::S(_) => 4,
        Gate::Sdg(_) => 5,
        Gate::T(_) => 6,
        Gate::Tdg(_) => 7,
        Gate::Sx(_) => 8,
        Gate::Sxdg(_) => 9,
        Gate::Rx(_, _) => 10,
        Gate::Ry(_, _) => 11,
        Gate::Rz(_, _) => 12,
        Gate::U1(_, _) => 13,
        Gate::U2(_, _, _) => 14,
        Gate::U3(_, _, _, _) => 15,
        Gate::Cx(_, _) => 16,
        Gate::Cz(_, _) => 17,
        Gate::Swap(_, _) => 18,
        Gate::Ccx(_, _, _) => 19,
        Gate::Measure(_, _) => 20,
        Gate::Barrier(_) => 21,
        Gate::Reset(_) => 22,
        Gate::Custom { .. } => 23,
    }
}

fn diagonal_qubit(g: &Gate) -> (r: Option<&QubitRef>)
    ensures
        r matches Some(q) ==> diagonal_on(g@) == Some(q@),
        r is None ==> diagonal_on(g@) is None,
{
    match g {
        Gate::Z(q) | Gate::S(q) | Gate::Sdg(q) | Gate::T(q) | Gate::Tdg(q) | Gate::Rz(_, q) | Gate::U1(_, q) => Some(q),
        _ => None,
    }
}

fn x_axis_qubit(g: &Gate) -> (r: Option<&QubitRef>)
    ensures
        r matches Some(q) ==> x_axis_on(g@) == Some(q@),
        r is None ==> x_axis_on(g@) is None,
{
    match g {
        Gate::X(q) | Gate::Rx(_, q) => Some(q),
        _ => None,
    }
}

fn y_axis_qubit(g: &Gate) -> (r: Option<&QubitRef>)
    ensures
        r matches Some(q) ==> y_axis_on(g@) == Some(q@),
        r is None ==> y_axis_on(g@) is None,
{
    match g {
        Gate::Y(q) | Gate::Ry(_, q) => Some(q),
        _ => None,
    }
}

fn same_axis(p: Option<&QubitRef>, q: Option<&QubitRef>) -> (r: bool)
    ensures
        r == (p is Some && q is Some && p->0@ == q->0@),
{
    match (p, q) {
        (Some(x), Some(y)) => x.same_as(y),
        _ => false,
    }
}

fn passes_cx_exec(a: &Gate, b: &Gate) -> (r: bool)
    ensures
        r == passes_cx(a@, b@),
{
    match b {
        Gate::Cx(c, t) => {
            let d = match diagonal_qubit(a) { Some(q) => q.same_as(c), None => false };
            let x = match x_axis_qubit(a) { Some(q) => q.same_as(t), None => false };
            d || x
        },
        _ => false,
    }
}

fn rule_applies(a: &Gate, b: &Gate) -> (r: bool)
    ensures
        r == commutation_rule(a@, b@),
{
    same_axis(diagonal_qubit(a), diagonal_qubit(b))
        || same_axis(x_axis_qubit(a), x_axis_qubit(b))
        || same_axis(y_axis_qubit(a), y_axis_qubit(b))
        || passes_cx_exec(a, b)
        || passes_cx_exec(b, a)
}

/// `k` names one of the qubits `qs`.
pub open spec fn mentioned(qs: Seq<QubitRef>, k: BitKey) -> bool {
    exists|i: int| 0 <= i < qs.len() && qs[i]@ == k
}

/// Whether `q` names one of the qubits `qs`.
fn mentions(qs: &Vec<QubitRef>, q: &QubitRef) -> (r: bool)
    ensures
        r == mentioned(qs@, q@),
{
    let mut i: usize = 0;
    while i < qs.len()
        invariant
            i <= qs.len(),
            forall|j: int| 0 <= j < i ==> qs@[j]@ != q@,
        decreases qs.len() - i,
    {
        if qs[i].same_as(q) {
            return true;
        }
        i += 1;
    }
    false
}

/// Whether no qubit of `xs` is one of `ys`.
fn none_mentioned(xs: &Vec<QubitRef>, ys: &Vec<QubitRef>) -> (r: bool)
    ensures
        r == forall|i: int, j: int| 0 <= i < xs@.len() && 0 <= j < ys@.len() ==> xs@[i]@ != ys@[j]@,
{
    let mut i: usize = 0;
    while i < xs.len()
        invariant
            i <= xs.len(),
            forall|k: int, j: int| 0 <= k < i && 0 <= j < ys@.len() ==> xs@[k]@ != ys@[j]@,
        decreases xs.len() - i,
    {
        if mentions(ys, &xs[i]) {
            return false;
        }
        i += 1;
    }
    true
}

/// Whether `xs` and `ys` name the same qubits in the same order.
fn same_qubits(xs: &Vec<QubitRef>, ys: &Vec<QubitRef>) -> (r: bool)
    ensures
        r == (crate::gate::keys_of(xs@) == crate::gate::keys_of(ys@)),
{
    let ghost kx = crate::gate::keys_of(xs@);
    let ghost ky = crate::gate::keys_of(ys@);
    if xs.len() != ys.len() {
        proof { assert(kx.len() != ky.len()); }
        return false;
    }
    let mut i: usize = 0;
    while i < xs.len()
        invariant
            i <= xs@.len(),
            xs@.len() == ys@.len(),
            kx == crate::gate::keys_of(xs@),
            ky == crate::gate::keys_of(ys@),
            forall|k: int| 0 <= k < i ==> kx[k] == ky[k],
        decreases xs.len() - i,
    {
        if !xs[i].same_as(&ys[i]) {
            proof { assert(kx[i as int] != ky[i as int]); }
            return false;
        }
        i += 1;
    }
    proof { assert(kx =~= ky); }
    true
}

/// Returns true if gate a and gate b can be swapped without changing circuit semantics.
pub fn commutes(a: &Gate, b: &Gate) -> (r: bool)
    ensures
        r == spec_commutes(a@, b@),
{
    let qa = a.gate_qubits();
    let qb = b.gate_qubits();
    let ghost ka = crate::gate::keys_of(qa@);
    let ghost kb = crate::gate::keys_of(qb@);
    proof {
        assert(ka == a@.qubits());
        assert(kb == b@.qubits());
    }
    if none_mentioned(&qa, &qb) {
        proof {
            assert forall|i: int, j: int| 0 <= i < ka.len() && 0 <= j < kb.len() implies ka[i] != kb[j] by {
                assert(ka[i] == qa@[i]@);
                assert(kb[j] == qb@[j]@);
            }
        }
        return true;
    }
    proof {
        let (i, j) = choose|i: int, j: int| 0 <= i < qa@.len() && 0 <= j < qb@.len() && !(qa@[i]@ != qb@[j]@);
        assert(ka[i] == qa@[i]@ && kb[j] == qb@[j]@);
        assert(!disjoint_qubits(a@, b@));
    }
    if rule_applies(a, b) {
        return true;
    }
    let k = gate_kind(a);
    if k != gate_kind(b) || !(k <= 9 || (16 <= k && k <= 19)) {
        return false;
    }
    same_qubits(&qa, &qb)
}

} // verus!

verus! {

/// Every gate still standing strictly between positions `i` and `j` commutes with gate `i`.
pub open spec fn path_clear(gs: Seq<Gate>, skip: Set<int>, i: int, j: int) -> bool {
    forall|k: int| i < k < j && !skip.contains(k) ==> spec_commutes(gs[i]@, #[trigger] gs[k]@)
}

/// The partner found for gate `i`, looking from position `j` on: the first position still
/// standing, fewer than eight places after `i`, that holds an inverse of gate `i` with a
/// clear path to it; the search stops at the first gate that does not commute with gate `i`.
pub open spec fn scan<A: Fn(FloatOp, Angle, Angle) -> Angle>(arith: A, gs: Seq<Gate>, skip: Set<int>, i: int, j: int) -> Option<int>
    decreases gs.len() - j,
{
    if j >= gs.len() || j - i >= 8 || j < 0 {
        None
    } else if skip.contains(j) {
        scan(arith, gs, skip, i, j + 1)
    } else if spec_are_inverse(arith, gs[i]@, gs[j]@) && path_clear(gs, skip, i, j) {
        Some(j)
    } else if !spec_commutes(gs[i]@, gs[j]@) {
        None
    } else {
        scan(arith, gs, skip, i, j + 1)
    }
}

/// The positions cancelled after the first `i` gates have had their turn.
pub open spec fn skip_upto<A: Fn(FloatOp, Angle, Angle) -> Angle>(arith: A, gs: Seq<Gate>, i: nat) -> Set<int>
    decreases i,
{
    if i == 0 {
        Set::empty()
    } else {
        let s = skip_upto(arith, gs, (i - 1) as nat);
        let p = i - 1;
        if s.contains(p) {
            s
        } else {
            match scan(arith, gs, s, p, p + 1) {
                Some(j) => s.insert(p).insert(j),
                None => s,
            }
        }
    }
}

/// The gates among the first `k` whose positions are not in `skip`, in order.
pub open spec fn kept(gs: Seq<Gate>, skip: Set<int>, k: nat) -> Seq<Gate>
    decreases k,
{
    if k == 0 {
        Seq::empty()
    } else {
        let r = kept(gs, skip, (k - 1) as nat);
        if skip.contains(k - 1) { r } else { r.push(gs[k - 1]) }
    }
}

/// One round of the pass over `gs`.
pub open spec fn commute_round<A: Fn(FloatOp, Angle, Angle) -> Angle>(arith: A, gs: Seq<Gate>) -> Seq<Gate> {
    kept(gs, skip_upto(arith, gs, gs.len()), gs.len())
}

/// Rounds until one cancels nothing.
pub open spec fn commute_all<A: Fn(FloatOp, Angle, Angle) -> Angle>(arith: A, gs: Seq<Gate>) -> Seq<Gate>
    decreases gs.len(),
{
    let r = commute_round(arith, gs);
    if r.len() < gs.len() { commute_all(arith, r) } else { gs }
}

proof fn lemma_scan_range<A: Fn(FloatOp, Angle, Angle) -> Angle>(arith: A, gs: Seq<Gate>, skip: Set<int>, i: int, j: int)
    ensures
        scan(arith, gs, skip, i, j) matches Some(x) ==> j <= x < gs.len() && x < i + 8,
    decreases gs.len() - j,
{
    if !(j >= gs.len() || j - i >= 8 || j < 0) {
        lemma_scan_range(arith, gs, skip, i, j + 1);
    }
}

/// Positions are only ever added at or after that gate whose turn it is, and lie within `gs`.
proof fn lemma_skip_upto<A: Fn(FloatOp, Angle, Angle) -> Angle>(arith: A, gs: Seq<Gate>, i: nat, m: nat)
    requires
        i <= m,
    ensures
        forall|x: int| skip_upto(arith, gs, i).contains(x) ==> 0 <= x < gs.len(),
        forall|x: int| x < i ==> (skip_upto(arith, gs, m).contains(x) == skip_upto(arith, gs, i).contains(x)),
        forall|x: int| skip_upto(arith, gs, i).contains(x) ==> skip_upto(arith, gs, m).contains(x),
    decreases m,
{
    if m > i {
        lemma_skip_upto(arith, gs, i, (m - 1) as nat);
        let s = skip_upto(arith, gs, (m - 1) as nat);
        let p = m - 1;
        lemma_scan_range(arith, gs, s, p, p + 1);
    } else if i > 0 {
        lemma_skip_upto(arith, gs, (i - 1) as nat, (i - 1) as nat);
        let s = skip_upto(arith, gs, (i - 1) as nat);
        let p = i - 1;
        lemma_scan_range(arith, gs, s, p, p + 1);
        if !s.contains(p) {
            if let Some(j) = scan(arith, gs, s, p, p + 1) {
                assert(p < gs.len()) by {
                    assert(p + 1 <= j < gs.len());
                }
            }
        }
    }
}

proof fn lemma_kept_agree(gs: Seq<Gate>, s1: Set<int>, s2: Set<int>, k: nat)
    requires
        forall|x: int| 0 <= x < k ==> (s1.contains(x) == s2.contains(x)),
    ensures
        kept(gs, s1, k) == kept(gs, s2, k),
    decreases k,
{
    if k > 0 {
        lemma_kept_agree(gs, s1, s2, (k - 1) as nat);
    }
}

proof fn lemma_kept_len(gs: Seq<Gate>, s: Set<int>, k: nat)
    ensures
        kept(gs, s, k).len() <= k,
        kept(gs, s, k).len() < k <==> exists|x: int| 0 <= x < k && s.contains(x),
        (forall|x: int| 0 <= x < k ==> !s.contains(x)) && k <= gs.len() ==> kept(gs, s, k) == gs.subrange(0, k as int),
    decreases k,
{
    if k > 0 {
        lemma_kept_len(gs, s, (k - 1) as nat);
        if exists|x: int| 0 <= x < k - 1 && s.contains(x) {
            let x = choose|x: int| 0 <= x < k - 1 && s.contains(x);
            assert(0 <= x < k && s.contains(x));
        }
        if (forall|x: int| 0 <= x < k ==> !s.contains(x)) && k <= gs.len() {
            assert(kept(gs, s, k) =~= gs.subrange(0, k as int));
        }
    }
}

proof fn lemma_kept_removes(gs: Seq<Gate>, s: Set<int>, k: nat)
    requires
        k <= gs.len(),
    ensures
        only_removes(kept(gs, s, k), gs.subrange(0, k as int)),
    decreases k,
{
    if k == 0 {
        lemma_only_removes_refl(Seq::<Gate>::empty());
        assert(gs.subrange(0, 0) =~= Seq::<Gate>::empty());
    } else {
        let prev = gs.subrange(0, k - 1);
        lemma_kept_removes(gs, s, (k - 1) as nat);
        assert(prev.push(gs[k - 1]) =~= gs.subrange(0, k as int));
        if s.contains(k - 1) {
            lemma_only_removes_drop(kept(gs, s, (k - 1) as nat), prev, gs[k - 1]);
        } else {
            lemma_only_removes_push(kept(gs, s, (k - 1) as nat), prev, gs[k - 1]);
        }
    }
}

/// The pass only takes gates out (those it keeps stay unchanged and in order), never
/// lengthens the circuit, and what it leaves is a fixed point: one more round cancels
/// nothing, and a second run changes nothing.
pub proof fn lemma_commute_all_stable<A: Fn(FloatOp, Angle, Angle) -> Angle>(arith: A, gs: Seq<Gate>)
    ensures
        only_removes(commute_all(arith, gs), gs),
        commute_all(arith, gs).len() <= gs.len(),
        commute_round(arith, commute_all(arith, gs)) == commute_all(arith, gs),
        commute_all(arith, commute_all(arith, gs)) == commute_all(arith, gs),
    decreases gs.len(),
{
    let s = skip_upto(arith, gs, gs.len());
    let r = commute_round(arith, gs);
    lemma_kept_len(gs, s, gs.len());
    lemma_kept_removes(gs, s, gs.len());
    assert(gs.subrange(0, gs.len() as int) =~= gs);
    if r.len() < gs.len() {
        lemma_commute_all_stable(arith, r);
        lemma_only_removes_trans(commute_all(arith, r), r, gs);
    } else {
        lemma_only_removes_refl(gs);
        assert(r =~= gs);
    }
}

/// One round; also tells whether it cancelled anything.
pub fn commute_round_once<A: Fn(FloatOp, Angle, Angle) -> Angle>(arith: &A, gates: Vec<Gate>) -> (r: (Vec<Gate>, bool))
    requires
        arith_ok(*arith),
    ensures
        r.0@ == commute_round(*arith, gates@),
        r.1 == (r.0@.len() < gates@.len()),
{
    let ghost orig = gates@;
    let mut gates = gates;
    let n = gates.len();
    let mut skip: Vec<bool> = Vec::new();
    let mut t: usize = 0;
    while t < n
        invariant
            t <= n,
            skip@.len() == t,
            forall|x: int| 0 <= x < t ==> !skip@[x],
        decreases n - t,
    {
        skip.push(false);
        t += 1;
    }
    let mut out: Vec<Gate> = Vec::new();
    let mut changed = false;
    let mut i: usize = 0;
    while i < n
        invariant
            n == orig.len(),
            i <= n,
            gates@.len() == n,
            skip@.len() == n,
            forall|j: int| i <= j < n ==> gates@[j] == orig[j],
            forall|x: int| 0 <= x < n ==> skip@[x] == skip_upto(*arith, orig, i as nat).contains(x),
            forall|x: int| skip_upto(*arith, orig, i as nat).contains(x) ==> 0 <= x < n,
            out@ == kept(orig, skip_upto(*arith, orig, i as nat), i as nat),
            changed == exists|x: int| skip_upto(*arith, orig, i as nat).contains(x),
            arith_ok(*arith),
        decreases n - i,
    {
        let ghost s = skip_upto(*arith, orig, i as nat);
        let ghost s2 = skip_upto(*arith, orig, (i + 1) as nat);
        proof {
            lemma_skip_upto(*arith, orig, i as nat, (i + 1) as nat);
            lemma_skip_upto(*arith, orig, (i + 1) as nat, (i + 1) as nat);
            lemma_kept_agree(orig, s, s2, i as nat);
        }
        if skip[i] {
            proof {
                assert(s2 == s);
            }
            i += 1;
        } else {
            let mut found = false;
            let mut j = i + 1;
            let ghost target = scan(*arith, orig, s, i as int, i + 1);
            while j < n && j - i < 8
                invariant_except_break
                    !found,
                    scan(*arith, orig, s, i as int, j as int) == target,
                invariant
                    n == orig.len(),
                    i < n,
                    i + 1 <= j,
                    gates@.len() == n,
                    skip@.len() == n,
                    forall|j2: int| i <= j2 < n ==> gates@[j2] == orig[j2],
                    forall|x: int| 0 <= x < n ==> skip@[x] == s.contains(x),
                    arith_ok(*arith),
                ensures
                    found ==> target == Some(j as int),
                    !found ==> target is None,
                decreases n - j,
            {
                if skip[j] {
                    j += 1;
                    continue;
                }
                proof {
                    assert(gates@[i as int] == orig[i as int]);
                    assert(gates@[j as int] == orig[j as int]);
                }
                if are_inverse(arith, &gates[i], &gates[j]) {
                    let mut clear = true;
                    let mut k = i + 1;
                    while k < j
                        invariant
                            i + 1 <= k <= j,
                            j < n,
                            n == orig.len(),
                            gates@.len() == n,
                            skip@.len() == n,
                            forall|j2: int| i <= j2 < n ==> gates@[j2] == orig[j2],
                            forall|x: int| 0 <= x < n ==> skip@[x] == s.contains(x),
                            clear == (forall|k2: int| i < k2 < k && !s.contains(k2) ==> spec_commutes(orig[i as int]@, #[trigger] orig[k2]@)),
                        decreases j - k,
                    {
                        proof {
                            assert(gates@[i as int] == orig[i as int]);
                            assert(gates@[k as int] == orig[k as int]);
                        }
                        if !skip[k] && !commutes(&gates[i], &gates[k]) {
                            clear = false;
                        }
                        proof {
                            assert forall|k2: int| i < k2 < k + 1 && !s.contains(k2) && clear implies spec_commutes(orig[i as int]@, #[trigger] orig[k2]@) by {
                                if k2 < k {
                                }
                            }
                        }
                        k += 1;
                    }
                    if clear {
                        found = true;
                        break;
                    }
                }
                if !commutes(&gates[i], &gates[j]) {
                    break;
                }
                j += 1;
            }
            if found {
                proof {
                    lemma_scan_range(*arith, orig, s, i as int, i + 1);
                }
                skip.set(i, true);
                skip.set(j, true);
                changed = true;
                proof {
                    assert(s2 == s.insert(i as int).insert(j as int));
                }
            } else {
                let g = take_gate(&mut gates, i);
                out.push(g);
                proof {
                    assert(s2 == s);
                }
            }
            i += 1;
        }
    }
    proof {
        let s = skip_upto(*arith, orig, n as nat);
        lemma_kept_len(orig, s, n as nat);
    }
    (out, changed)
}

/// Rounds over `gates` until one cancels nothing.
pub fn commute_and_cancel<A: Fn(FloatOp, Angle, Angle) -> Angle>(arith: &A, gates: Vec<Gate>) -> (out: Vec<Gate>)
    requires
        arith_ok(*arith),
    ensures
        out@ == commute_all(*arith, gates@),
{
    let ghost orig = gates@;
    let mut gates = gates;
    let mut changed = true;
    while changed
        invariant
            arith_ok(*arith),
            changed ==> commute_all(*arith, gates@) == commute_all(*arith, orig),
            !changed ==> gates@ == commute_all(*arith, orig),
        decreases gates@.len() + if changed { 1int } else { 0int },
    {
        let ghost before = gates@;
        let (next, c) = commute_round_once(arith, gates);
        proof {
            let s = skip_upto(*arith, before, before.len());
            lemma_kept_len(before, s, before.len());
            if !c {
                assert(next@ == before.subrange(0, before.len() as int));
                assert(before.subrange(0, before.len() as int) =~= before);
                assert(commute_all(*arith, before) == before);
            } else {
                assert(commute_all(*arith, before) == commute_all(*arith, next@));
            }
        }
        gates = next;
        changed = c;
    }
    gates
}

impl CommutationAnalysis {
    pub fn name(&self) -> (s: &str)
        ensures
            s@ == "commutation_analysis"@,
    {
        "commutation_analysis"
    }

    pub fn run<A: Fn(FloatOp, Angle, Angle) -> Angle>(&self, circuit: Circuit, arith: &A) -> (r: (Circuit, PassReport))
        requires
            arith_ok(*arith),
        ensures
            r.0.gates@ == commute_all(*arith, circuit.gates@),
            same_frame(circuit, r.0),
            r.1.pass_name@ == "commutation_analysis"@,
            r.1.gates_removed == removed_count(circuit, r.0),
            r.1.reason@ == "commuted and cancelled "@ + spec_decimal(r.1.gates_removed as int) + " gate(s)"@,
    {
        let before = circuit.gate_count();
        let Circuit { name, qregs, cregs, gates, metadata } = circuit;
        let out = commute_and_cancel(arith, gates);
        let c = Circuit { name, qregs, cregs, gates: out, metadata };
        let after = c.gate_count();
        let removed = (before as i128 - after as i128) as i64;
        let reason = count_message("commuted and cancelled ", removed, " gate(s)");
        let report = PassReport { pass_name: String::from_str("commutation_analysis"), gates_removed: removed, reason };
        (c, report)
    }
}

} // verus!
