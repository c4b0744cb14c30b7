use vstd::prelude::*;
use crate::gate::Gate;

verus! {

/// `idx` places each gate of `out` at a position of `gs` that holds it, the positions
/// strictly increasing.
pub open spec fn embedding(idx: Seq<int>, out: Seq<Gate>, gs: Seq<Gate>) -> bool {
    &&& idx.len() == out.len()
    &&& forall|m: int| 0 <= m < idx.len() ==> 0 <= #[trigger] idx[m] < gs.len() && out[m] == gs[idx[m]]
    &&& forall|m: int, p: int| 0 <= m < p < idx.len() ==> #[trigger] idx[m] < #[trigger] idx[p]
}

/// `out` is `gs` with some gates taken out: every gate of `out` stands in `gs`, in the
/// same order, and no gate was changed or added.
pub open spec fn only_removes(out: Seq<Gate>, gs: Seq<Gate>) -> bool {
    exists|idx: Seq<int>| embedding(idx, out, gs)
}

/// Taking nothing out.
pub proof fn lemma_only_removes_refl(gs: Seq<Gate>)
    ensures
        only_removes(gs, gs),
{
    let idx = Seq::new(gs.len(), |m: int| m);
    assert(embedding(idx, gs, gs));
}

/// Taking gates out twice is taking gates out once.
pub proof fn lemma_only_removes_trans(a: Seq<Gate>, b: Seq<Gate>, c: Seq<Gate>)
    requires
        only_removes(a, b),
        only_removes(b, c),
    ensures
        only_removes(a, c),
{
    let i1 = choose|idx: Seq<int>| embedding(idx, a, b);
    let i2 = choose|idx: Seq<int>| embedding(idx, b, c);
    let idx = Seq::new(a.len(), |m: int| i2[i1[m]]);
    assert forall|m: int, p: int| 0 <= m < p < idx.len() implies #[trigger] idx[m] < #[trigger] idx[p] by {
        assert(i1[m] < i1[p]);
        assert(i2[i1[m]] < i2[i1[p]]);
    }
    assert forall|m: int| 0 <= m < idx.len() implies 0 <= #[trigger] idx[m] < c.len() && a[m] == c[idx[m]] by {
        assert(0 <= i1[m] < b.len());
        assert(a[m] == b[i1[m]]);
        assert(b[i1[m]] == c[i2[i1[m]]]);
    }
    assert(embedding(idx, a, c));
}

/// Keeping the last gate of `gs` after taking gates out of the rest.
pub proof fn lemma_only_removes_push(out: Seq<Gate>, gs: Seq<Gate>, g: Gate)
    requires
        only_removes(out, gs),
    ensures
        only_removes(out.push(g), gs.push(g)),
{
    let i1 = choose|idx: Seq<int>| embedding(idx, out, gs);
    let idx = i1.push(gs.len() as int);
    assert forall|m: int| 0 <= m < idx.len() implies 0 <= #[trigger] idx[m] < gs.push(g).len() && out.push(g)[m] == gs.push(g)[idx[m]] by {
        if m < i1.len() {
            assert(idx[m] == i1[m]);
        }
    }
    assert forall|m: int, p: int| 0 <= m < p < idx.len() implies #[trigger] idx[m] < #[trigger] idx[p] by {
        if p < i1.len() {
            assert(i1[m] < i1[p]);
        } else {
            assert(i1[m] < gs.len());
        }
    }
    assert(embedding(idx, out.push(g), gs.push(g)));
}

/// Taking the last gate of `gs` out as well.
pub proof fn lemma_only_removes_drop(out: Seq<Gate>, gs: Seq<Gate>, g: Gate)
    requires
        only_removes(out, gs),
    ensures
        only_removes(out, gs.push(g)),
{
    let i1 = choose|idx: Seq<int>| embedding(idx, out, gs);
    assert forall|m: int| 0 <= m < i1.len() implies 0 <= #[trigger] i1[m] < gs.push(g).len() && out[m] == gs.push(g)[i1[m]] by {
        assert(0 <= i1[m] < gs.len());
    }
    assert(embedding(i1, out, gs.push(g)));
}

/// Keeping the first gate of `gs` before taking gates out of the rest.
pub proof fn lemma_only_removes_prepend(out: Seq<Gate>, gs: Seq<Gate>, g: Gate)
    requires
        only_removes(out, gs),
    ensures
        only_removes(seq![g] + out, seq![g] + gs),
{
    let i1 = choose|idx: Seq<int>| embedding(idx, out, gs);
    let idx = Seq::new(out.len() + 1, |m: int| if m == 0 { 0 } else { i1[m - 1] + 1 });
    let a = seq![g] + out;
    let b = seq![g] + gs;
    assert forall|m: int| 0 <= m < idx.len() implies 0 <= #[trigger] idx[m] < b.len() && a[m] == b[idx[m]] by {
        if m > 0 {
            assert(0 <= i1[m - 1] < gs.len());
            assert(a[m] == out[m - 1]);
            assert(b[i1[m - 1] + 1] == gs[i1[m - 1]]);
        }
    }
    assert forall|m: int, p: int| 0 <= m < p < idx.len() implies #[trigger] idx[m] < #[trigger] idx[p] by {
        if m > 0 {
            assert(i1[m - 1] < i1[p - 1]);
        } else {
            assert(0 <= i1[p - 1]);
        }
    }
    assert(embedding(idx, a, b));
}

/// Taking out the first `k` gates of `gs` as well.
pub proof fn lemma_only_removes_skip(out: Seq<Gate>, gs: Seq<Gate>, k: int)
    requires
        0 <= k <= gs.len(),
        only_removes(out, gs.skip(k)),
    ensures
        only_removes(out, gs),
{
    let i1 = choose|idx: Seq<int>| embedding(idx, out, gs.skip(k));
    let idx = Seq::new(out.len(), |m: int| i1[m] + k);
    assert forall|m: int| 0 <= m < idx.len() implies 0 <= #[trigger] idx[m] < gs.len() && out[m] == gs[idx[m]] by {
        assert(0 <= i1[m] < gs.skip(k).len());
        assert(gs.skip(k)[i1[m]] == gs[i1[m] + k]);
    }
    assert forall|m: int, p: int| 0 <= m < p < idx.len() implies #[trigger] idx[m] < #[trigger] idx[p] by {
        assert(i1[m] < i1[p]);
    }
    assert(embedding(idx, out, gs));
}

} // verus!
