//! The coordinate model of the grid: the mapping between (x, y) coordinates
//! and flat row-major indices, the 8-connected adjacency relation clipped at
//! the grid boundary, and the per-cell neighbor counts that the engine's
//! invariants are stated over.

use vstd::prelude::*;
use crate::spot::{Spot, SpotKind, SpotState};
use vstd::arithmetic::div_mod::{
    lemma_fundamental_div_mod,
    lemma_fundamental_div_mod_converse,
    lemma_mod_division_less_than_divisor,
};

verus! {

/// The smaller of two integers.
pub open spec fn spec_min(a: int, b: int) -> int {
    if a <= b {
        a
    } else {
        b
    }
}

/// Are (x, y) coordinates inside a w-by-h grid?
pub open spec fn in_grid(w: int, h: int, x: int, y: int) -> bool {
    0 <= x < w && 0 <= y < h
}

/// The flat row-major index of the cell at (x, y).
pub open spec fn idx_of(w: int, x: int, y: int) -> int {
    y * w + x
}

/// The x coordinate of the cell at flat index i.
pub open spec fn col(w: int, i: int) -> int {
    i % w
}

/// The y coordinate of the cell at flat index i.
pub open spec fn row(w: int, i: int) -> int {
    i / w
}

/// Is i a valid flat index of a w-by-h grid?
pub open spec fn in_field(w: int, h: int, i: int) -> bool {
    0 <= i < w * h
}

/// The 8-connected adjacency relation on flat indices: two distinct valid
/// cells whose coordinates differ by at most one unit in each axis.  There
/// is no wraparound: cells on opposite edges are never neighbors, because
/// their column coordinates differ by more than one.
pub open spec fn is_neighbor(w: int, h: int, i: int, j: int) -> bool {
    &&& in_field(w, h, i)
    &&& in_field(w, h, j)
    &&& i != j
    &&& -1 <= col(w, j) - col(w, i) <= 1
    &&& -1 <= row(w, j) - row(w, i) <= 1
}

/// A valid flat index decomposes into in-range coordinates.
pub proof fn lemma_field_coords(w: int, h: int, i: int)
    requires
        w >= 1,
        h >= 1,
        in_field(w, h, i),
    ensures
        0 <= col(w, i) < w,
        0 <= row(w, i) < h,
        i == row(w, i) * w + col(w, i),
{
    lemma_fundamental_div_mod(i, w);
    lemma_mod_division_less_than_divisor(i, w);
    assert(i == w * (i / w) + (i % w));
    assert(row(w, i) * w == w * (i / w)) by (nonlinear_arith);
    assert(0 <= i / w && i / w < h) by (nonlinear_arith)
        requires
            w >= 1,
            h >= 1,
            0 <= i < w * h,
            i == w * (i / w) + (i % w),
            0 <= i % w < w,
    ;
}

/// In-range coordinates produce a valid flat index that decomposes back
/// into the same coordinates.
pub proof fn lemma_idx_coords(w: int, h: int, x: int, y: int)
    requires
        w >= 1,
        h >= 1,
        in_grid(w, h, x, y),
    ensures
        in_field(w, h, idx_of(w, x, y)),
        col(w, idx_of(w, x, y)) == x,
        row(w, idx_of(w, x, y)) == y,
{
    assert(0 <= y * w + x < w * h) by (nonlinear_arith)
        requires
            w >= 1,
            h >= 1,
            0 <= x < w,
            0 <= y < h,
    ;
    lemma_fundamental_div_mod_converse(y * w + x, w, y, x);
}

/// A valid offset of a valid cell is its neighbor: if the coordinates of i
/// shifted by (dx, dy) still fall inside the grid, the cell there is
/// adjacent to i.
pub proof fn lemma_offset_neighbor(w: int, h: int, i: int, dx: int, dy: int)
    requires
        w >= 1,
        h >= 1,
        in_field(w, h, i),
        -1 <= dx <= 1,
        -1 <= dy <= 1,
        !(dx == 0 && dy == 0),
        in_grid(w, h, col(w, i) + dx, row(w, i) + dy),
    ensures
        is_neighbor(w, h, i, idx_of(w, col(w, i) + dx, row(w, i) + dy)),
{
    lemma_field_coords(w, h, i);
    lemma_idx_coords(w, h, col(w, i) + dx, row(w, i) + dy);
    let j = idx_of(w, col(w, i) + dx, row(w, i) + dy);
    assert(j - i == dy * w + dx) by (nonlinear_arith)
        requires
            i == row(w, i) * w + col(w, i),
            j == (row(w, i) + dy) * w + (col(w, i) + dx),
    ;
    if j == i {
        assert(dy * w + dx == 0);
        assert(0 <= col(w, i) < w && 0 <= col(w, i) + dx < w);
        assert(dy == 0 && dx == 0) by (nonlinear_arith)
            requires
                dy * w + dx == 0,
                -1 <= dy <= 1,
                0 <= col(w, i) < w,
                0 <= col(w, i) + dx < w,
                w >= 1,
        ;
    }
}

/// Is the cell at (x, y) a mine?  False outside the grid, so boundary
/// clipping is built into the neighbor counts below.
pub open spec fn mine_at(s: Seq<Spot>, w: int, h: int, x: int, y: int) -> bool {
    in_grid(w, h, x, y) && s[idx_of(w, x, y)].kind is Mine
}

pub open spec fn one_if_mine(s: Seq<Spot>, w: int, h: int, x: int, y: int) -> int {
    if mine_at(s, w, h, x, y) {
        1
    } else {
        0
    }
}

/// The exact number of mines among the up-to-8 grid neighbors of (x, y):
/// one term per offset, each clipped at the boundary.
pub open spec fn mine_count_at(s: Seq<Spot>, w: int, h: int, x: int, y: int) -> int {
    one_if_mine(s, w, h, x - 1, y - 1) + one_if_mine(s, w, h, x, y - 1) + one_if_mine(
        s,
        w,
        h,
        x + 1,
        y - 1,
    ) + one_if_mine(s, w, h, x - 1, y) + one_if_mine(s, w, h, x + 1, y) + one_if_mine(
        s,
        w,
        h,
        x - 1,
        y + 1,
    ) + one_if_mine(s, w, h, x, y + 1) + one_if_mine(s, w, h, x + 1, y + 1)
}

/// Is the cell at (x, y) inside the grid and currently flagged?
pub open spec fn flagged_at(s: Seq<Spot>, w: int, h: int, x: int, y: int) -> bool {
    in_grid(w, h, x, y) && s[idx_of(w, x, y)].state is Flagged
}

pub open spec fn one_if_flagged(s: Seq<Spot>, w: int, h: int, x: int, y: int) -> int {
    if flagged_at(s, w, h, x, y) {
        1
    } else {
        0
    }
}

/// The number of flags among the up-to-8 grid neighbors of (x, y).
pub open spec fn flag_count_at(s: Seq<Spot>, w: int, h: int, x: int, y: int) -> int {
    one_if_flagged(s, w, h, x - 1, y - 1) + one_if_flagged(s, w, h, x, y - 1) + one_if_flagged(
        s,
        w,
        h,
        x + 1,
        y - 1,
    ) + one_if_flagged(s, w, h, x - 1, y) + one_if_flagged(s, w, h, x + 1, y) + one_if_flagged(
        s,
        w,
        h,
        x - 1,
        y + 1,
    ) + one_if_flagged(s, w, h, x, y + 1) + one_if_flagged(s, w, h, x + 1, y + 1)
}

/// The neighbor-count invariant of a field: every empty cell records the
/// exact number of mines adjacent to it.
#[verifier::opaque]
pub open spec fn cell_count_ok(s: Seq<Spot>, w: int, h: int, x: int, y: int) -> bool {
    s[idx_of(w, x, y)].kind matches SpotKind::Empty(n) ==> n == mine_count_at(s, w, h, x, y)
}

pub open spec fn counts_ok(s: Seq<Spot>, w: int, h: int) -> bool {
    forall|x: int, y: int| #[trigger] in_grid(w, h, x, y) ==> cell_count_ok(s, w, h, x, y)
}

/// Two fields of equal size whose cells agree on where the mines are have
/// equal neighbor counts everywhere.
pub proof fn lemma_mine_count_congruent(s0: Seq<Spot>, s1: Seq<Spot>, w: int, h: int, x: int, y: int)
    requires
        w >= 1,
        h >= 1,
        s0.len() == w * h,
        s1.len() == s0.len(),
        forall|i: int|
            0 <= i < s0.len() ==> ((#[trigger] s1[i]).kind is Mine <==> s0[i].kind is Mine),
    ensures
        mine_count_at(s1, w, h, x, y) == mine_count_at(s0, w, h, x, y),
{
    assert forall|xx: int, yy: int| #[trigger] in_grid(w, h, xx, yy) implies (mine_at(
        s1,
        w,
        h,
        xx,
        yy,
    ) <==> mine_at(s0, w, h, xx, yy)) by {
        lemma_idx_coords(w, h, xx, yy);
    }
}

/// The neighbor-count invariant only reads the kinds of the cells, so it
/// survives any change of visibility.
pub proof fn lemma_counts_ok_kind_congruent(s0: Seq<Spot>, s1: Seq<Spot>, w: int, h: int)
    requires
        w >= 1,
        h >= 1,
        s0.len() == w * h,
        s1.len() == s0.len(),
        forall|i: int| 0 <= i < s0.len() ==> (#[trigger] s1[i]).kind == s0[i].kind,
        counts_ok(s0, w, h),
    ensures
        counts_ok(s1, w, h),
{
    assert forall|x: int, y: int| #[trigger] in_grid(w, h, x, y) implies cell_count_ok(
        s1,
        w,
        h,
        x,
        y,
    ) by {
        reveal(crate::grid::cell_count_ok);
        assert(cell_count_ok(s0, w, h, x, y));
        lemma_idx_coords(w, h, x, y);
        lemma_mine_count_congruent(s0, s1, w, h, x, y);
    }
}

/// Do two coordinate pairs address distinct cells at most one unit apart
/// in each axis?
pub open spec fn adjacent_coords(x1: int, y1: int, x2: int, y2: int) -> bool {
    &&& !(x1 == x2 && y1 == y2)
    &&& -1 <= x2 - x1 <= 1
    &&& -1 <= y2 - y1 <= 1
}

/// Placing one mine at (xm, ym) raises the neighbor count of (xp, yp) by
/// one exactly when the two cells are adjacent, and leaves it unchanged
/// otherwise.
pub proof fn lemma_mine_count_after_mine(
    s0: Seq<Spot>,
    sf: Seq<Spot>,
    w: int,
    h: int,
    xm: int,
    ym: int,
    xp: int,
    yp: int,
)
    requires
        w >= 1,
        h >= 1,
        s0.len() == w * h,
        sf.len() == s0.len(),
        in_grid(w, h, xm, ym),
        !(s0[idx_of(w, xm, ym)].kind is Mine),
        sf[idx_of(w, xm, ym)].kind is Mine,
        forall|x: int, y: int|
            #![trigger in_grid(w, h, x, y)]
            in_grid(w, h, x, y) && !(x == xm && y == ym) ==> (sf[idx_of(w, x, y)].kind is Mine
                <==> s0[idx_of(w, x, y)].kind is Mine),
    ensures
        mine_count_at(sf, w, h, xp, yp) == mine_count_at(s0, w, h, xp, yp) + (if adjacent_coords(
            xp,
            yp,
            xm,
            ym,
        ) {
            1int
        } else {
            0int
        }),
{
    assert forall|xx: int, yy: int| #[trigger] in_grid(w, h, xx, yy) implies in_field(
        w,
        h,
        idx_of(w, xx, yy),
    ) by {
        lemma_idx_coords(w, h, xx, yy);
    }
}

/// After a mine is placed at (xm, ym) and each adjacent empty cell's count
/// is raised by one, the neighbor-count invariant holds again.
pub proof fn lemma_counts_ok_after_mine(
    s0: Seq<Spot>,
    sf: Seq<Spot>,
    w: int,
    h: int,
    xm: int,
    ym: int,
)
    requires
        w >= 1,
        h >= 1,
        s0.len() == w * h,
        sf.len() == s0.len(),
        counts_ok(s0, w, h),
        in_grid(w, h, xm, ym),
        !(s0[idx_of(w, xm, ym)].kind is Mine),
        sf[idx_of(w, xm, ym)].kind is Mine,
        forall|x: int, y: int|
            #![trigger in_grid(w, h, x, y)]
            in_grid(w, h, x, y) && !(x == xm && y == ym) ==> (sf[idx_of(w, x, y)].kind is Mine
                <==> s0[idx_of(w, x, y)].kind is Mine),
        forall|x: int, y: int|
            #![trigger in_grid(w, h, x, y)]
            in_grid(w, h, x, y) && adjacent_coords(x, y, xm, ym) ==> (s0[idx_of(
                w,
                x,
                y,
            )].kind matches SpotKind::Empty(n) ==> sf[idx_of(w, x, y)].kind == SpotKind::Empty(
                (n + 1) as i32,
            )),
        forall|x: int, y: int|
            #![trigger in_grid(w, h, x, y)]
            in_grid(w, h, x, y) && !adjacent_coords(x, y, xm, ym) && !(x == xm && y == ym)
                ==> sf[idx_of(w, x, y)].kind == s0[idx_of(w, x, y)].kind,
    ensures
        counts_ok(sf, w, h),
{
    assert forall|xp: int, yp: int| #[trigger] in_grid(w, h, xp, yp) implies cell_count_ok(
        sf,
        w,
        h,
        xp,
        yp,
    ) by {
        reveal(crate::grid::cell_count_ok);
        lemma_idx_coords(w, h, xp, yp);
        lemma_mine_count_after_mine(s0, sf, w, h, xm, ym, xp, yp);
        assert(cell_count_ok(s0, w, h, xp, yp));
        let j = idx_of(w, xp, yp);
        if xp == xm && yp == ym {
            assert(sf[j].kind is Mine);
        } else if adjacent_coords(xp, yp, xm, ym) {
            if !(s0[j].kind is Mine) {
                let n = s0[j].kind->Empty_0;
                assert(n == mine_count_at(s0, w, h, xp, yp));
                assert(0 <= n <= 8);
                assert(sf[j].kind == SpotKind::Empty((n + 1) as i32));
            }
        } else {
            assert(sf[j].kind == s0[j].kind);
        }
    }
}

/// In a field whose neighbor counts are exact, every empty cell's count
/// lies between 0 and 8.
pub proof fn lemma_counts_bounded(s: Seq<Spot>, w: int, h: int)
    requires
        w >= 1,
        h >= 1,
        s.len() == w * h,
        counts_ok(s, w, h),
    ensures
        forall|x: int, y: int|
            #![trigger in_grid(w, h, x, y)]
            in_grid(w, h, x, y) ==> (s[idx_of(w, x, y)].kind matches SpotKind::Empty(n) ==> 0 <= n
                <= 8),
{
    assert forall|x: int, y: int|
        #![trigger in_grid(w, h, x, y)]
        in_grid(w, h, x, y) implies (s[idx_of(w, x, y)].kind matches SpotKind::Empty(n) ==> 0 <= n
        <= 8) by {
        reveal(crate::grid::cell_count_ok);
        assert(cell_count_ok(s, w, h, x, y));
    }
}

/// The number of cells of s accepted by the predicate p.
pub open spec fn count_matching(s: Seq<Spot>, p: spec_fn(Spot) -> bool) -> int
    decreases s.len(),
{
    if s.len() == 0 {
        0
    } else {
        count_matching(s.drop_last(), p) + if p(s.last()) {
            1int
        } else {
            0int
        }
    }
}

pub open spec fn is_mine_spot(c: Spot) -> bool {
    c.kind is Mine
}

pub open spec fn is_revealed_spot(c: Spot) -> bool {
    c.state is Revealed
}

pub open spec fn is_hidden_spot(c: Spot) -> bool {
    c.state is Hidden
}

/// The number of mines in the whole field.
pub open spec fn count_mines(s: Seq<Spot>) -> int {
    count_matching(s, |c: Spot| is_mine_spot(c))
}

/// The number of revealed cells in the whole field.
pub open spec fn count_revealed(s: Seq<Spot>) -> int {
    count_matching(s, |c: Spot| is_revealed_spot(c))
}

/// The number of hidden cells in the whole field.
pub open spec fn count_hidden(s: Seq<Spot>) -> int {
    count_matching(s, |c: Spot| is_hidden_spot(c))
}

pub proof fn lemma_count_matching_bounds(s: Seq<Spot>, p: spec_fn(Spot) -> bool)
    ensures
        0 <= count_matching(s, p) <= s.len(),
    decreases s.len(),
{
    if s.len() > 0 {
        lemma_count_matching_bounds(s.drop_last(), p);
    }
}

/// How a count changes when one cell is replaced.
pub proof fn lemma_count_matching_update(s: Seq<Spot>, p: spec_fn(Spot) -> bool, i: int, v: Spot)
    requires
        0 <= i < s.len(),
    ensures
        count_matching(s.update(i, v), p) == count_matching(s, p) - (if p(s[i]) {
            1int
        } else {
            0int
        }) + (if p(v) {
            1int
        } else {
            0int
        }),
    decreases s.len(),
{
    let s1 = s.update(i, v);
    if i == s.len() - 1 {
        assert(s1.drop_last() =~= s.drop_last());
    } else {
        assert(s1.drop_last() =~= s.drop_last().update(i, v));
        lemma_count_matching_update(s.drop_last(), p, i, v);
    }
}

/// A count is extensional: it agrees on fields whose cells are accepted
/// in the same places.
pub proof fn lemma_count_matching_congruent(s0: Seq<Spot>, s1: Seq<Spot>, p: spec_fn(Spot) -> bool)
    requires
        s0.len() == s1.len(),
        forall|i: int| 0 <= i < s0.len() ==> (p(#[trigger] s1[i]) <==> p(s0[i])),
    ensures
        count_matching(s1, p) == count_matching(s0, p),
    decreases s0.len(),
{
    if s0.len() > 0 {
        lemma_count_matching_congruent(s0.drop_last(), s1.drop_last(), p);
    }
}

/// If no cell is accepted, the count is zero.
pub proof fn lemma_count_matching_none(s: Seq<Spot>, p: spec_fn(Spot) -> bool)
    requires
        forall|i: int| 0 <= i < s.len() ==> !p(#[trigger] s[i]),
    ensures
        count_matching(s, p) == 0,
    decreases s.len(),
{
    if s.len() > 0 {
        lemma_count_matching_none(s.drop_last(), p);
    }
}

/// If the count is full, every cell is accepted.
pub proof fn lemma_count_matching_all(s: Seq<Spot>, p: spec_fn(Spot) -> bool)
    requires
        count_matching(s, p) == s.len(),
    ensures
        forall|i: int| 0 <= i < s.len() ==> p(#[trigger] s[i]),
    decreases s.len(),
{
    if s.len() > 0 {
        lemma_count_matching_bounds(s.drop_last(), p);
        lemma_count_matching_all(s.drop_last(), p);
        assert forall|i: int| 0 <= i < s.len() implies p(#[trigger] s[i]) by {
            if i < s.len() - 1 {
                assert(s.drop_last()[i] == s[i]);
            } else {
                assert(s[i] == s.last());
            }
        }
    }
}

pub proof fn lemma_count_mines_update(s: Seq<Spot>, i: int, v: Spot)
    requires
        0 <= i < s.len(),
    ensures
        count_mines(s.update(i, v)) == count_mines(s) - (if s[i].kind is Mine {
            1int
        } else {
            0int
        }) + (if v.kind is Mine {
            1int
        } else {
            0int
        }),
{
    lemma_count_matching_update(s, |c: Spot| is_mine_spot(c), i, v);
}

pub proof fn lemma_count_hidden_update(s: Seq<Spot>, i: int, v: Spot)
    requires
        0 <= i < s.len(),
    ensures
        count_hidden(s.update(i, v)) == count_hidden(s) - (if s[i].state is Hidden {
            1int
        } else {
            0int
        }) + (if v.state is Hidden {
            1int
        } else {
            0int
        }),
{
    lemma_count_matching_update(s, |c: Spot| is_hidden_spot(c), i, v);
}

pub proof fn lemma_count_mines_bounds(s: Seq<Spot>)
    ensures
        0 <= count_mines(s) <= s.len(),
{
    lemma_count_matching_bounds(s, |c: Spot| is_mine_spot(c));
}

pub proof fn lemma_count_hidden_bounds(s: Seq<Spot>)
    ensures
        0 <= count_hidden(s) <= s.len(),
{
    lemma_count_matching_bounds(s, |c: Spot| is_hidden_spot(c));
}

/// A field with no mine cells counts zero mines.
pub proof fn lemma_count_mines_none(s: Seq<Spot>)
    requires
        forall|i: int| 0 <= i < s.len() ==> !((#[trigger] s[i]).kind is Mine),
    ensures
        count_mines(s) == 0,
{
    lemma_count_matching_none(s, |c: Spot| is_mine_spot(c));
}

/// A field whose mine count is full is all mines.
pub proof fn lemma_count_mines_all(s: Seq<Spot>)
    requires
        count_mines(s) == s.len(),
    ensures
        forall|i: int| 0 <= i < s.len() ==> (#[trigger] s[i]).kind is Mine,
{
    lemma_count_matching_all(s, |c: Spot| is_mine_spot(c));
    assert forall|i: int| 0 <= i < s.len() implies (#[trigger] s[i]).kind is Mine by {
        assert(is_mine_spot(s[i]));
    }
}

/// A field whose mine count is zero has no mine cell.
pub proof fn lemma_count_mines_zero(s: Seq<Spot>)
    requires
        count_mines(s) == 0,
    ensures
        forall|i: int| 0 <= i < s.len() ==> !((#[trigger] s[i]).kind is Mine),
{
    lemma_count_matching_zero(s, |c: Spot| is_mine_spot(c));
    assert forall|i: int| 0 <= i < s.len() implies !((#[trigger] s[i]).kind is Mine) by {
        assert(!is_mine_spot(s[i]));
    }
}

/// The mine count only reads where the mines are.
pub proof fn lemma_count_mines_congruent(s0: Seq<Spot>, s1: Seq<Spot>)
    requires
        s0.len() == s1.len(),
        forall|i: int|
            0 <= i < s0.len() ==> ((#[trigger] s1[i]).kind is Mine <==> s0[i].kind is Mine),
    ensures
        count_mines(s1) == count_mines(s0),
{
    lemma_count_matching_congruent(s0, s1, |c: Spot| is_mine_spot(c));
}

/// Two mutually exclusive counts fill the sequence exactly when every cell
/// is accepted by one of the two predicates.
pub proof fn lemma_disjoint_counts_full(s: Seq<Spot>, p: spec_fn(Spot) -> bool, q: spec_fn(Spot) -> bool)
    requires
        forall|i: int| 0 <= i < s.len() ==> !(p(#[trigger] s[i]) && q(s[i])),
    ensures
        count_matching(s, p) + count_matching(s, q) <= s.len(),
        (count_matching(s, p) + count_matching(s, q) == s.len()) <==> (forall|i: int|
            0 <= i < s.len() ==> (p(#[trigger] s[i]) || q(s[i]))),
    decreases s.len(),
{
    if s.len() > 0 {
        let s1 = s.drop_last();
        assert(forall|i: int| 0 <= i < s1.len() ==> (#[trigger] s1[i]) == s[i]);
        lemma_disjoint_counts_full(s1, p, q);
        if count_matching(s, p) + count_matching(s, q) == s.len() {
            assert(count_matching(s1, p) + count_matching(s1, q) == s1.len());
            assert(p(s.last()) || q(s.last()));
            assert forall|i: int| 0 <= i < s.len() implies (p(#[trigger] s[i]) || q(s[i])) by {
                if i < s.len() - 1 {
                    assert(s[i] == s1[i]);
                } else {
                    assert(s[i] == s.last());
                }
            }
        }
        if forall|i: int| 0 <= i < s.len() ==> (p(#[trigger] s[i]) || q(s[i])) {
            assert forall|i: int| 0 <= i < s1.len() implies (p(#[trigger] s1[i]) || q(s1[i])) by {
                assert(s1[i] == s[i]);
            }
            assert(p(s.last()) || q(s.last()));
        }
    }
}

/// If the count is zero, no cell is accepted.
pub proof fn lemma_count_matching_zero(s: Seq<Spot>, p: spec_fn(Spot) -> bool)
    requires
        count_matching(s, p) == 0,
    ensures
        forall|i: int| 0 <= i < s.len() ==> !p(#[trigger] s[i]),
    decreases s.len(),
{
    if s.len() > 0 {
        lemma_count_matching_bounds(s.drop_last(), p);
        lemma_count_matching_zero(s.drop_last(), p);
        assert forall|i: int| 0 <= i < s.len() implies !p(#[trigger] s[i]) by {
            if i < s.len() - 1 {
                assert(s.drop_last()[i] == s[i]);
            } else {
                assert(s[i] == s.last());
            }
        }
    }
}

} // verus!
