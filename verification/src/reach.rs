//! Flood reachability: which cells a reveal of a zero-count cell propagates
//! to.  A cell is reached when a chain of zero-count hidden cells connects
//! the stepped cell to it; the last cell of the chain may be a numbered cell
//! bordering the zero region, which is revealed but not expanded.  Mines are
//! never reached, and a numbered or flagged cell walls the propagation off.

use vstd::prelude::*;
use crate::spot::{Spot, SpotKind, SpotState};
use crate::grid::{idx_of, in_field, in_grid, is_neighbor};

verus! {

/// Is the cell at (x, y) one that flood propagation reveals: inside the
/// grid, still hidden, and not a mine?
pub open spec fn floodable(s: Seq<Spot>, w: int, h: int, x: int, y: int) -> bool {
    &&& in_grid(w, h, x, y)
    &&& s[idx_of(w, x, y)].state is Hidden
    &&& s[idx_of(w, x, y)].kind matches SpotKind::Empty(_)
}

/// A chain of cells that flood propagation can walk in field s: each cell is
/// a neighbor of the next, and every cell strictly between the two ends is a
/// hidden zero-count cell (revealing it expands the propagation further).
pub open spec fn flood_path(s: Seq<Spot>, w: int, h: int, p: Seq<int>) -> bool {
    &&& p.len() >= 2
    &&& forall|t: int| 0 <= t < p.len() - 1 ==> is_neighbor(w, h, #[trigger] p[t], p[t + 1])
    &&& forall|t: int|
        1 <= t < p.len() - 1 ==> (#[trigger] s[p[t]]).state is Hidden && s[p[t]].kind
            == SpotKind::Empty(0)
}

/// Flood propagation seeded at a zero-count cell reaches cell j: j is a
/// hidden empty cell joined to the seed by a chain of hidden zero-count
/// cells.  The seed itself only needs to be a zero-count cell (it is the
/// cell just stepped on, so it is usually already revealed); j may carry
/// any neighbor count, but a mine is never reached.
#[verifier::opaque]
pub open spec fn flood_reach(s: Seq<Spot>, w: int, h: int, seed: int, j: int) -> bool {
    &&& in_field(w, h, seed)
    &&& s[seed].kind == SpotKind::Empty(0)
    &&& in_field(w, h, j)
    &&& s[j].state is Hidden
    &&& s[j].kind matches SpotKind::Empty(_)
    &&& exists|p: Seq<int>| flood_path(s, w, h, p) && p[0] == seed && p.last() == j
}

/// The cell j after flood propagation seeded at seed: revealed if the
/// propagation reaches it, untouched otherwise.
#[verifier::opaque]
pub open spec fn flood_result(s: Seq<Spot>, w: int, h: int, seed: int, j: int) -> Spot {
    if flood_reach(s, w, h, seed, j) {
        Spot { kind: s[j].kind, state: SpotState::Revealed }
    } else {
        s[j]
    }
}

/// A hidden empty neighbor of the seed is reached.
pub proof fn lemma_reach_base(s: Seq<Spot>, w: int, h: int, seed: int, m: int)
    requires
        in_field(w, h, seed),
        s[seed].kind == SpotKind::Empty(0),
        is_neighbor(w, h, seed, m),
        s[m].state is Hidden,
        s[m].kind matches SpotKind::Empty(_),
    ensures
        flood_reach(s, w, h, seed, m),
{
    reveal(crate::reach::flood_reach);
    let p = seq![seed, m];
    assert(p[0] == seed && p.last() == m);
    assert(flood_path(s, w, h, p));
}

/// A hidden empty neighbor of a reached hidden zero-count cell is reached.
pub proof fn lemma_reach_extend(s: Seq<Spot>, w: int, h: int, seed: int, k: int, m: int)
    requires
        flood_reach(s, w, h, seed, k),
        s[k].kind == SpotKind::Empty(0),
        is_neighbor(w, h, k, m),
        s[m].state is Hidden,
        s[m].kind matches SpotKind::Empty(_),
    ensures
        flood_reach(s, w, h, seed, m),
{
    reveal(crate::reach::flood_reach);
    let p = choose|p: Seq<int>| flood_path(s, w, h, p) && p[0] == seed && p.last() == k;
    let q = p.push(m);
    assert(q[0] == seed && q.last() == m);
    assert forall|t: int| 0 <= t < q.len() - 1 implies is_neighbor(w, h, #[trigger] q[t], q[t + 1]) by {
        if t < p.len() - 1 {
            assert(q[t] == p[t] && q[t + 1] == p[t + 1]);
        } else {
            assert(q[t] == k && q[t + 1] == m);
        }
    }
    assert forall|t: int|
        1 <= t < q.len() - 1 implies (#[trigger] s[q[t]]).state is Hidden && s[q[t]].kind
        == SpotKind::Empty(0) by {
        if t < p.len() - 1 {
            assert(q[t] == p[t]);
        } else {
            assert(q[t] == k);
        }
    }
    assert(flood_path(s, w, h, q));
}

/// Reachability is preserved backwards through reveals: if s1 differs from
/// s0 only by cells that went from hidden to revealed, anything the flood
/// reaches in s1 it also reaches in s0.
pub proof fn lemma_reach_mono(s0: Seq<Spot>, s1: Seq<Spot>, w: int, h: int, seed: int, j: int)
    requires
        s0.len() == s1.len(),
        forall|i: int| 0 <= i < s0.len() ==> (#[trigger] s1[i]).kind == s0[i].kind,
        forall|i: int|
            0 <= i < s0.len() ==> (s1[i] != s0[i] ==> s0[i].state is Hidden && (
            #[trigger] s1[i]).state is Revealed),
        s0.len() == w * h,
        flood_reach(s1, w, h, seed, j),
    ensures
        flood_reach(s0, w, h, seed, j),
{
    reveal(crate::reach::flood_reach);
    assert(s1[j] == s0[j]);
    let p = choose|p: Seq<int>| flood_path(s1, w, h, p) && p[0] == seed && p.last() == j;
    assert forall|t: int|
        1 <= t < p.len() - 1 implies (#[trigger] s0[p[t]]).state is Hidden && s0[p[t]].kind
        == SpotKind::Empty(0) by {
        assert(is_neighbor(w, h, p[t - 1], p[t]));
        assert(in_field(w, h, p[t]));
        assert(s1[p[t]] == s0[p[t]]);
    }
    assert(flood_path(s0, w, h, p));
}

/// Completeness of a finished flood: once every expanded zero-count cell
/// (the seed or any cell the flood revealed) has no hidden empty neighbor
/// left, every cell a flood chain leads to has been revealed.  s0 is the
/// field when the flood started, s1 the field when it finished.
pub proof fn lemma_flood_complete(s0: Seq<Spot>, s1: Seq<Spot>, w: int, h: int, seed: int, p: Seq<int>)
    requires
        s0.len() == w * h,
        s1.len() == s0.len(),
        forall|i: int| 0 <= i < s0.len() ==> (#[trigger] s1[i]).kind == s0[i].kind,
        forall|i: int|
            0 <= i < s0.len() ==> (s1[i] != s0[i] ==> s0[i].state is Hidden && (
            #[trigger] s1[i]).state is Revealed),
        forall|k: int, m: int|
            #![trigger is_neighbor(w, h, k, m)]
            in_field(w, h, k) && s1[k].kind == SpotKind::Empty(0) && (k == seed || s1[k] != s0[k])
                && is_neighbor(w, h, k, m) ==> !(s1[m].state is Hidden && s1[m].kind matches
            SpotKind::Empty(_)),
        p.len() >= 2,
        in_field(w, h, p[0]),
        s0[p[0]].kind == SpotKind::Empty(0),
        p[0] == seed || s1[p[0]] != s0[p[0]],
        forall|t: int| 0 <= t < p.len() - 1 ==> is_neighbor(w, h, #[trigger] p[t], p[t + 1]),
        forall|t: int|
            1 <= t < p.len() - 1 ==> (#[trigger] s0[p[t]]).state is Hidden && s0[p[t]].kind
                == SpotKind::Empty(0),
        s0[p.last()].state is Hidden,
        s0[p.last()].kind matches SpotKind::Empty(_),
    ensures
        s1[p.last()].state is Revealed,
    decreases p.len(),
{
    let k0 = p[0];
    let k1 = p[1];
    assert(is_neighbor(w, h, k0, k1));
    assert(in_field(w, h, k1));
    assert(s1[k0].kind == s0[k0].kind);
    assert(!(s1[k1].state is Hidden && s1[k1].kind matches SpotKind::Empty(_)));
    if p.len() == 2 {
        assert(k1 == p.last());
        assert(s1[k1].kind matches SpotKind::Empty(_));
        assert(!(s1[k1].state is Hidden));
        assert(s1[k1] != s0[k1]);
    } else {
        assert(s0[k1].state is Hidden && s0[k1].kind == SpotKind::Empty(0));
        assert(!(s1[k1].state is Hidden));
        assert(s1[k1] != s0[k1]);
        assert(s1[k1].state is Revealed);
        let q = p.subrange(1, p.len() as int);
        assert(q.len() == p.len() - 1);
        assert(q[0] == k1);
        assert(q.last() == p.last());
        assert forall|t: int| 0 <= t < q.len() - 1 implies is_neighbor(w, h, #[trigger] q[t], q[t + 1]) by {
            assert(q[t] == p[t + 1] && q[t + 1] == p[t + 2]);
        }
        assert forall|t: int|
            1 <= t < q.len() - 1 implies (#[trigger] s0[q[t]]).state is Hidden && s0[q[t]].kind
            == SpotKind::Empty(0) by {
            assert(q[t] == p[t + 1]);
        }
        lemma_flood_complete(s0, s1, w, h, seed, q);
    }
}

} // verus!
