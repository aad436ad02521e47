//! The minefield engine: grid construction, randomized collision-free mine
//! placement with exact neighbor counts, the reveal step with flood
//! propagation, the chord resolve, flag toggling and the completion query.

use vstd::prelude::*;
use crate::spot::{FlagResult, Spot, SpotKind, SpotState, StepResult};
use crate::grid::{
    adjacent_coords, cell_count_ok, col, count_hidden, count_mines, count_revealed, counts_ok,
    flag_count_at, idx_of, in_field, in_grid, is_neighbor, lemma_count_hidden_bounds,
    lemma_count_hidden_update, lemma_count_mines_bounds, lemma_count_mines_congruent,
    lemma_count_mines_none, lemma_count_mines_update, lemma_count_mines_zero,
    lemma_counts_bounded, lemma_counts_ok_after_mine, lemma_counts_ok_kind_congruent,
    lemma_field_coords, lemma_idx_coords, lemma_mine_count_congruent, lemma_offset_neighbor,
    mine_at, mine_count_at, one_if_flagged, row,
};
use crate::reach::{flood_path, flood_reach, flood_result, floodable, lemma_flood_complete,
    lemma_reach_base, lemma_reach_extend, lemma_reach_mono};
use crate::grid::spec_min;
use rand::Rng;

verus! {

/// The area of a grid with u16 dimensions fits comfortably in 32 bits, so
/// flat indices never overflow a usize.
proof fn lemma_area_bound(w: int, h: int)
    requires
        0 <= w <= 0xFFFF,
        0 <= h <= 0xFFFF,
    ensures
        w * h <= 0xFFFE0001,
{
    assert(w * h <= 0xFFFF * 0xFFFF) by (nonlinear_arith)
        requires
            0 <= w <= 0xFFFF,
            0 <= h <= 0xFFFF,
    ;
}

/// The column offset of the t-th of the eight neighbor offsets, enumerated
/// row by row.
pub open spec fn off_dx(t: int) -> int {
    if t == 0 || t == 3 || t == 5 {
        -1
    } else if t == 1 || t == 6 {
        0
    } else {
        1
    }
}

/// The row offset of the t-th of the eight neighbor offsets.
pub open spec fn off_dy(t: int) -> int {
    if t <= 2 {
        -1
    } else if t <= 4 {
        0
    } else {
        1
    }
}

/// Every nonzero offset with both components within one unit is one of the
/// eight enumerated neighbor offsets.
proof fn lemma_offsets_cover(dx: int, dy: int)
    requires
        -1 <= dx <= 1,
        -1 <= dy <= 1,
        !(dx == 0 && dy == 0),
    ensures
        exists|u: int| 0 <= u < 8 && off_dx(u) == dx && off_dy(u) == dy,
{
    if dy == -1 {
        if dx == -1 {
            assert(off_dx(0) == dx && off_dy(0) == dy);
        } else if dx == 0 {
            assert(off_dx(1) == dx && off_dy(1) == dy);
        } else {
            assert(off_dx(2) == dx && off_dy(2) == dy);
        }
    } else if dy == 0 {
        if dx == -1 {
            assert(off_dx(3) == dx && off_dy(3) == dy);
        } else {
            assert(off_dx(4) == dx && off_dy(4) == dy);
        }
    } else {
        if dx == -1 {
            assert(off_dx(5) == dx && off_dy(5) == dy);
        } else if dx == 0 {
            assert(off_dx(6) == dx && off_dy(6) == dy);
        } else {
            assert(off_dx(7) == dx && off_dy(7) == dy);
        }
    }
}

/// The eight neighbor offsets are enumerated in lexicographic order: row
/// first, then column.
proof fn lemma_offsets_lex(u1: int, u2: int)
    requires
        0 <= u1 < u2 < 8,
    ensures
        off_dy(u1) < off_dy(u2) || (off_dy(u1) == off_dy(u2) && off_dx(u1) < off_dx(u2)),
{
}

/// The t-th of the eight neighbor offsets, as executable values.
fn offset8(t: usize) -> (r: (i32, i32))
    requires
        t < 8,
    ensures
        r.0 as int == off_dx(t as int),
        r.1 as int == off_dy(t as int),
{
    match t {
        0 => (-1, -1),
        1 => (0, -1),
        2 => (1, -1),
        3 => (-1, 0),
        4 => (1, 0),
        5 => (-1, 1),
        6 => (0, 1),
        _ => (1, 1),
    }
}

/// Relies on rand::thread_rng and rand::Rng::gen_range: draws a number
/// uniformly at random below the given bound.  Nothing is assumed of the
/// result beyond its range, so the callers handle every outcome.
#[verifier::external_body]
fn random_below(bound: usize) -> (r: usize)
    requires
        bound > 0,
    ensures
        r < bound,
{
    rand::thread_rng().gen_range(0..bound)
}

/// Removing an element of a duplicate-free sequence by swapping the last
/// element into its place keeps the rest duplicate-free, and the removed
/// element is gone.
proof fn lemma_swap_remove_distinct(s: Seq<usize>, i: int)
    requires
        0 <= i < s.len(),
        s.no_duplicates(),
    ensures
        s.update(i, s.last()).drop_last().no_duplicates(),
        forall|u: int|
            0 <= u < s.len() - 1 ==> #[trigger] s.update(i, s.last()).drop_last()[u] == (if u == i {
                s[s.len() - 1]
            } else {
                s[u]
            }),
        forall|u: int|
            0 <= u < s.len() - 1 ==> #[trigger] s.update(i, s.last()).drop_last()[u] != s[i] || i
                == s.len() - 1,
{
    let r = s.update(i, s.last()).drop_last();
    assert forall|u: int| 0 <= u < s.len() - 1 implies #[trigger] r[u] == (if u == i {
        s[s.len() - 1]
    } else {
        s[u]
    }) by {}
    assert forall|u1: int, u2: int|
        0 <= u1 < r.len() && 0 <= u2 < r.len() && u1 != u2 implies r[u1] != r[u2] by {
        let p1: int = if u1 == i {
            s.len() - 1
        } else {
            u1
        };
        let p2: int = if u2 == i {
            s.len() - 1
        } else {
            u2
        };
        assert(r[u1] == s[p1] && r[u2] == s[p2]);
        assert(p1 != p2);
    }
    assert(r.no_duplicates());
}

/// Can the cell at (x, y) be chord-resolved: a revealed empty cell with a
/// positive count that exactly matches the number of flags among its
/// neighbors?
pub open spec fn resolvable(s: Seq<Spot>, w: int, h: int, x: int, y: int) -> bool {
    &&& in_grid(w, h, x, y)
    &&& s[idx_of(w, x, y)].state is Revealed
    &&& (s[idx_of(w, x, y)].kind matches SpotKind::Empty(n) && n > 0 && n == flag_count_at(
        s,
        w,
        h,
        x,
        y,
    ))
}

/// Does the cell at flat index idx have a neighbor that is still hidden
/// and hides a mine?  A chord resolve on idx detonates exactly when this
/// holds.
#[verifier::opaque]
pub open spec fn has_hidden_mine_neighbor(s: Seq<Spot>, w: int, h: int, idx: int) -> bool {
    exists|k: int|
        #![trigger is_neighbor(w, h, idx, k)]
        is_neighbor(w, h, idx, k) && s[k].state is Hidden && s[k].kind is Mine
}

/// Is the cell j one that a chord resolve of the cell idx may reveal: a
/// hidden neighbor of idx, or a cell flood propagation reaches from such a
/// neighbor?
#[verifier::opaque]
pub open spec fn chord_reached(s: Seq<Spot>, w: int, h: int, idx: int, j: int) -> bool {
    exists|k: int|
        #![trigger is_neighbor(w, h, idx, k)]
        is_neighbor(w, h, idx, k) && s[k].state is Hidden && (j == k || flood_reach(s, w, h, k, j))
}

/// The minefield: a rectangular grid of cells in row-major order, with its
/// dimensions and the number of mines placed so far.
pub struct Minefield {
    field: Vec<Spot>,
    mines: u16,
    width: u16,
    height: u16,
}

impl Minefield {
    /// The width of the grid, as a mathematical integer.
    pub closed spec fn spec_width(self) -> int {
        self.width as int
    }

    /// The height of the grid, as a mathematical integer.
    pub closed spec fn spec_height(self) -> int {
        self.height as int
    }

    /// The number of mines placed so far, as a mathematical integer.
    pub closed spec fn spec_mines(self) -> int {
        self.mines as int
    }

    /// The cells of the grid, in row-major order.
    pub closed spec fn cells(self) -> Seq<Spot> {
        self.field@
    }

    /// Well-formedness: the dimensions are positive, the store holds
    /// exactly one cell per grid position, every empty cell records the
    /// exact number of adjacent mines, and the mine counter equals the
    /// number of mine cells.
    pub open spec fn wf(self) -> bool {
        &&& 1 <= self.spec_width()
        &&& 1 <= self.spec_height()
        &&& self.cells().len() == self.spec_width() * self.spec_height()
        &&& counts_ok(self.cells(), self.spec_width(), self.spec_height())
        &&& self.spec_mines() == count_mines(self.cells())
    }

    /// Create an empty minefield (all cells hidden, no mines) with the
    /// given width and height; a width or height of zero is clamped to 1,
    /// so the grid is never degenerate.
    pub fn new(width: u16, height: u16) -> (r: Self)
        ensures
            r.wf(),
            r.spec_width() == if width == 0 {
                1int
            } else {
                width as int
            },
            r.spec_height() == if height == 0 {
                1int
            } else {
                height as int
            },
            r.spec_mines() == 0,
            forall|i: int|
                0 <= i < r.cells().len() ==> r.cells()[i] == (Spot {
                    kind: SpotKind::Empty(0),
                    state: SpotState::Hidden,
                }),
    {
        let w: u16 = if width == 0 {
            1
        } else {
            width
        };
        let h: u16 = if height == 0 {
            1
        } else {
            height
        };
        proof {
            lemma_area_bound(w as int, h as int);
        }
        let spot_count: usize = (w as usize) * (h as usize);
        let mut field: Vec<Spot> = Vec::new();
        while field.len() < spot_count
            invariant
                field@.len() <= spot_count,
                forall|i: int|
                    0 <= i < field@.len() ==> field@[i] == (Spot {
                        kind: SpotKind::Empty(0),
                        state: SpotState::Hidden,
                    }),
            decreases spot_count - field@.len(),
        {
            field.push(Spot { kind: SpotKind::Empty(0), state: SpotState::Hidden });
        }
        let r = Minefield { field, mines: 0, width: w, height: h };
        proof {
            let s = r.cells();
            let wi = w as int;
            let hi = h as int;
            assert forall|x: int, y: int| #[trigger] in_grid(wi, hi, x, y) implies cell_count_ok(
                s,
                wi,
                hi,
                x,
                y,
            ) by {
                reveal(crate::grid::cell_count_ok);
                lemma_idx_coords(wi, hi, x, y);
                assert forall|xx: int, yy: int| #[trigger] in_grid(wi, hi, xx, yy) implies !mine_at(
                    s,
                    wi,
                    hi,
                    xx,
                    yy,
                ) by {
                    lemma_idx_coords(wi, hi, xx, yy);
                }
                assert(mine_count_at(s, wi, hi, x, y) == 0);
            }
            lemma_count_mines_none(s);
        }
        r
    }

    pub fn width(&self) -> (r: u16)
        ensures
            r as int == self.spec_width(),
    {
        self.width
    }

    pub fn height(&self) -> (r: u16)
        ensures
            r as int == self.spec_height(),
    {
        self.height
    }

    pub fn mines(&self) -> (r: u16)
        ensures
            r as int == self.spec_mines(),
    {
        self.mines
    }

    /// The flat index of the cell at the given coordinates, or None when
    /// they fall outside the grid.
    pub fn spot_index(&self, x: i32, y: i32) -> (r: Option<usize>)
        requires
            self.wf(),
        ensures
            in_grid(self.spec_width(), self.spec_height(), x as int, y as int) ==> r == Some(
                idx_of(self.spec_width(), x as int, y as int) as usize,
            ),
            !in_grid(self.spec_width(), self.spec_height(), x as int, y as int) ==> r is None,
            r matches Some(i) ==> i < self.cells().len(),
    {
        if x >= 0 && x < self.width as i32 && y >= 0 && y < self.height as i32 {
            proof {
                lemma_idx_coords(self.spec_width(), self.spec_height(), x as int, y as int);
                lemma_area_bound(self.spec_width(), self.spec_height());
            }
            Some((y as usize) * (self.width as usize) + (x as usize))
        } else {
            None
        }
    }

    /// The coordinates of the cell at the given flat index.
    pub fn spot_coords(&self, index: usize) -> (r: (i32, i32))
        requires
            1 <= self.spec_width(),
            1 <= self.spec_height(),
            self.cells().len() == self.spec_width() * self.spec_height(),
            index < self.cells().len(),
        ensures
            r.0 == col(self.spec_width(), index as int),
            r.1 == row(self.spec_width(), index as int),
            in_grid(self.spec_width(), self.spec_height(), r.0 as int, r.1 as int),
            idx_of(self.spec_width(), r.0 as int, r.1 as int) == index,
    {
        proof {
            lemma_field_coords(self.spec_width(), self.spec_height(), index as int);
        }
        let x = (index % (self.width as usize)) as i32;
        let y = (index / (self.width as usize)) as i32;
        (x, y)
    }

    /// Add one to the recorded neighbor count of the cell at (x, y), if
    /// those coordinates are inside the grid and the cell is empty;
    /// otherwise change nothing.
    fn bump(&mut self, x: i32, y: i32)
        requires
            1 <= old(self).spec_width(),
            1 <= old(self).spec_height(),
            old(self).cells().len() == old(self).spec_width() * old(self).spec_height(),
            in_grid(old(self).spec_width(), old(self).spec_height(), x as int, y as int) ==> (old(
                self,
            ).cells()[idx_of(old(self).spec_width(), x as int, y as int)].kind matches
                SpotKind::Empty(n) ==> n < 0x7FFFFFFF),
        ensures
            final(self).spec_width() == old(self).spec_width(),
            final(self).spec_height() == old(self).spec_height(),
            final(self).spec_mines() == old(self).spec_mines(),
            final(self).cells().len() == old(self).cells().len(),
            forall|j: int|
                0 <= j < old(self).cells().len() ==> (#[trigger] final(self).cells()[j]).state
                    == old(self).cells()[j].state,
            forall|j: int|
                0 <= j < old(self).cells().len() && (!in_grid(
                    old(self).spec_width(),
                    old(self).spec_height(),
                    x as int,
                    y as int,
                ) || j != idx_of(old(self).spec_width(), x as int, y as int)) ==> (#[trigger] final(self).cells()[j]) == old(self).cells()[j],
            in_grid(old(self).spec_width(), old(self).spec_height(), x as int, y as int) ==> (old(
                self,
            ).cells()[idx_of(old(self).spec_width(), x as int, y as int)].kind matches
                SpotKind::Empty(n) ==> final(self).cells()[idx_of(
                old(self).spec_width(),
                x as int,
                y as int,
            )] == (Spot {
                kind: SpotKind::Empty((n + 1) as i32),
                state: old(self).cells()[idx_of(old(self).spec_width(), x as int, y as int)].state,
            })),
            in_grid(old(self).spec_width(), old(self).spec_height(), x as int, y as int) ==> (old(
                self,
            ).cells()[idx_of(old(self).spec_width(), x as int, y as int)].kind is Mine
                ==> final(self).cells()[idx_of(old(self).spec_width(), x as int, y as int)] == old(
                self,
            ).cells()[idx_of(old(self).spec_width(), x as int, y as int)]),
    {
        if x >= 0 && x < self.width as i32 && y >= 0 && y < self.height as i32 {
            proof {
                lemma_idx_coords(self.spec_width(), self.spec_height(), x as int, y as int);
                lemma_area_bound(self.spec_width(), self.spec_height());
            }
            let index = (y as usize) * (self.width as usize) + (x as usize);
            let c = self.field[index];
            if let SpotKind::Empty(n) = c.kind {
                self.field[index] = Spot { kind: SpotKind::Empty(n + 1), state: c.state };
            }
        }
    }

    /// Add one to the recorded count of every empty cell adjacent to the
    /// cell at (x, y), which already holds a mine.  All other cells, and
    /// every cell's visibility, are untouched.
    #[verifier::rlimit(100)]
    #[verifier::spinoff_prover]
    fn bump_neighbors(&mut self, x: i32, y: i32)
        requires
            1 <= old(self).spec_width(),
            1 <= old(self).spec_height(),
            old(self).cells().len() == old(self).spec_width() * old(self).spec_height(),
            in_grid(old(self).spec_width(), old(self).spec_height(), x as int, y as int),
            old(self).cells()[idx_of(old(self).spec_width(), x as int, y as int)].kind is Mine,
            forall|xx: int, yy: int|
                #![trigger in_grid(old(self).spec_width(), old(self).spec_height(), xx, yy)]
                in_grid(old(self).spec_width(), old(self).spec_height(), xx, yy) ==> (old(
                    self,
                ).cells()[idx_of(old(self).spec_width(), xx, yy)].kind matches SpotKind::Empty(n)
                    ==> 0 <= n <= 8),
        ensures
            final(self).spec_width() == old(self).spec_width(),
            final(self).spec_height() == old(self).spec_height(),
            final(self).spec_mines() == old(self).spec_mines(),
            final(self).cells().len() == old(self).cells().len(),
            forall|j: int|
                0 <= j < old(self).cells().len() ==> (#[trigger] final(self).cells()[j]).state
                    == old(self).cells()[j].state,
            final(self).cells()[idx_of(old(self).spec_width(), x as int, y as int)] == old(
                self,
            ).cells()[idx_of(old(self).spec_width(), x as int, y as int)],
            forall|xp: int, yp: int|
                #![trigger in_grid(old(self).spec_width(), old(self).spec_height(), xp, yp)]
                in_grid(old(self).spec_width(), old(self).spec_height(), xp, yp) ==> ((
                #[trigger] final(self).cells()[idx_of(old(self).spec_width(), xp, yp)]).kind
                    is Mine <==> old(self).cells()[idx_of(old(self).spec_width(), xp, yp)].kind
                    is Mine),
            forall|xp: int, yp: int|
                #![trigger in_grid(old(self).spec_width(), old(self).spec_height(), xp, yp)]
                in_grid(old(self).spec_width(), old(self).spec_height(), xp, yp)
                    && adjacent_coords(xp, yp, x as int, y as int) ==> (old(self).cells()[idx_of(
                    old(self).spec_width(),
                    xp,
                    yp,
                )].kind matches SpotKind::Empty(n) ==> final(self).cells()[idx_of(
                    old(self).spec_width(),
                    xp,
                    yp,
                )].kind == SpotKind::Empty((n + 1) as i32)),
            forall|xp: int, yp: int|
                #![trigger in_grid(old(self).spec_width(), old(self).spec_height(), xp, yp)]
                in_grid(old(self).spec_width(), old(self).spec_height(), xp, yp)
                    && !adjacent_coords(xp, yp, x as int, y as int) ==> final(self).cells()[idx_of(
                    old(self).spec_width(),
                    xp,
                    yp,
                )].kind == old(self).cells()[idx_of(old(self).spec_width(), xp, yp)].kind,
    {
        let ghost w = self.spec_width();
        let ghost h = self.spec_height();
        let ghost s1 = self.cells();
        proof {
            assert forall|xx: int, yy: int| #[trigger] in_grid(w, h, xx, yy) implies in_field(
                w,
                h,
                idx_of(w, xx, yy),
            ) && col(w, idx_of(w, xx, yy)) == xx && row(w, idx_of(w, xx, yy)) == yy by {
                lemma_idx_coords(w, h, xx, yy);
            }
        }
        self.bump(x - 1, y - 1);
        self.bump(x, y - 1);
        self.bump(x + 1, y - 1);
        self.bump(x - 1, y);
        self.bump(x + 1, y);
        self.bump(x - 1, y + 1);
        self.bump(x, y + 1);
        self.bump(x + 1, y + 1);
        proof {
            let sf = self.cells();
            let xi = x as int;
            let yi = y as int;
            assert forall|xp: int, yp: int|
                #![trigger in_grid(w, h, xp, yp)]
                in_grid(w, h, xp, yp) implies ((sf[idx_of(w, xp, yp)].kind is Mine <==> s1[idx_of(
                w,
                xp,
                yp,
            )].kind is Mine) && (adjacent_coords(xp, yp, xi, yi) ==> (s1[idx_of(
                w,
                xp,
                yp,
            )].kind matches SpotKind::Empty(n) ==> sf[idx_of(w, xp, yp)].kind == SpotKind::Empty(
                (n + 1) as i32,
            ))) && (!adjacent_coords(xp, yp, xi, yi) ==> sf[idx_of(w, xp, yp)].kind == s1[idx_of(
                w,
                xp,
                yp,
            )].kind)) by {
                lemma_idx_coords(w, h, xp, yp);
            }
        }
    }

    /// Place a mine at the given flat index and add one to the recorded
    /// neighbor count of every adjacent empty cell.  A cell that is already
    /// a mine is left untouched.  Cell visibility never changes here.
    #[verifier::rlimit(100)]
    #[verifier::spinoff_prover]
    pub fn place_mine(&mut self, index: usize)
        requires
            old(self).wf(),
            index < old(self).cells().len(),
            old(self).spec_mines() < 0xFFFF,
        ensures
            final(self).wf(),
            final(self).spec_width() == old(self).spec_width(),
            final(self).spec_height() == old(self).spec_height(),
            final(self).cells().len() == old(self).cells().len(),
            forall|j: int|
                0 <= j < old(self).cells().len() ==> (#[trigger] final(self).cells()[j]).state
                    == old(self).cells()[j].state,
            old(self).cells()[index as int].kind is Mine ==> final(self).cells()
                == old(self).cells() && final(self).spec_mines() == old(self).spec_mines(),
            old(self).cells()[index as int].kind matches SpotKind::Empty(_)
                ==> final(self).cells()[index as int].kind is Mine && final(self).spec_mines()
                == old(self).spec_mines() + 1,
            forall|j: int|
                0 <= j < old(self).cells().len() && j != index
                    ==> ((#[trigger] final(self).cells()[j]).kind is Mine <==> old(
                    self,
                ).cells()[j].kind is Mine),
    {
        let ghost w = self.spec_width();
        let ghost h = self.spec_height();
        let ghost s0 = self.cells();
        let c = self.field[index];
        match c.kind {
            SpotKind::Mine => {},
            SpotKind::Empty(_) => {
                let (x, y) = self.spot_coords(index);
                proof {
                    assert forall|xx: int, yy: int| #[trigger] in_grid(w, h, xx, yy) implies
                        in_field(w, h, idx_of(w, xx, yy)) && col(w, idx_of(w, xx, yy)) == xx && row(
                        w,
                        idx_of(w, xx, yy),
                    ) == yy by {
                        lemma_idx_coords(w, h, xx, yy);
                    }
                    lemma_counts_bounded(s0, w, h);
                }
                self.field[index] = Spot { kind: SpotKind::Mine, state: c.state };
                self.mines = self.mines + 1;
                let ghost s1 = self.cells();
                proof {
                    lemma_count_mines_update(
                        s0,
                        index as int,
                        Spot { kind: SpotKind::Mine, state: c.state },
                    );
                }
                self.bump_neighbors(x, y);
                proof {
                    let sf = self.cells();
                    let xi = x as int;
                    let yi = y as int;
                    assert forall|xx: int, yy: int| #[trigger] in_grid(w, h, xx, yy) implies
                        in_field(w, h, idx_of(w, xx, yy)) && col(w, idx_of(w, xx, yy)) == xx && row(
                        w,
                        idx_of(w, xx, yy),
                    ) == yy by {
                        lemma_idx_coords(w, h, xx, yy);
                    }
                    assert(in_grid(w, h, xi, yi) && idx_of(w, xi, yi) == index as int);
                    assert forall|xp: int, yp: int|
                        #![trigger in_grid(w, h, xp, yp)]
                        in_grid(w, h, xp, yp) && !(xp == xi && yp == yi) implies (sf[idx_of(
                        w,
                        xp,
                        yp,
                    )].kind is Mine <==> s0[idx_of(w, xp, yp)].kind is Mine) by {
                        assert(s1[idx_of(w, xp, yp)] == s0[idx_of(w, xp, yp)]);
                    }
                    assert forall|xp: int, yp: int|
                        #![trigger in_grid(w, h, xp, yp)]
                        in_grid(w, h, xp, yp) && adjacent_coords(xp, yp, xi, yi) implies (s0[idx_of(
                        w,
                        xp,
                        yp,
                    )].kind matches SpotKind::Empty(n) ==> sf[idx_of(w, xp, yp)].kind
                        == SpotKind::Empty((n + 1) as i32)) by {
                        assert(s1[idx_of(w, xp, yp)] == s0[idx_of(w, xp, yp)]);
                    }
                    assert forall|xp: int, yp: int|
                        #![trigger in_grid(w, h, xp, yp)]
                        in_grid(w, h, xp, yp) && !adjacent_coords(xp, yp, xi, yi) && !(xp == xi && yp
                        == yi) implies sf[idx_of(w, xp, yp)].kind == s0[idx_of(w, xp, yp)].kind by {
                        assert(s1[idx_of(w, xp, yp)] == s0[idx_of(w, xp, yp)]);
                    }
                    lemma_counts_ok_after_mine(s0, sf, w, h, xi, yi);
                    assert forall|j: int| 0 <= j < sf.len() implies ((#[trigger] sf[j]).kind is Mine
                        <==> s1[j].kind is Mine) by {
                        lemma_field_coords(w, h, j);
                        assert(in_grid(w, h, col(w, j), row(w, j)));
                        assert(idx_of(w, col(w, j), row(w, j)) == j);
                    }
                    lemma_count_mines_congruent(s1, sf);
                    assert forall|j: int| 0 <= j < sf.len() implies (#[trigger] sf[j]).state
                        == s0[j].state by {
                        lemma_field_coords(w, h, j);
                    }
                }
            },
        }
    }

    /// Place the given number of mines, clamped to the number of cells, on
    /// distinct cells drawn at random from a shrinking pool of free cells,
    /// so placement needs one draw per mine and never retries.  Each mine
    /// fully updates its neighbors' counts before the next one is drawn.
    /// Mines are placed once, on a field that has none yet; visibility is
    /// untouched.
    pub fn with_mines(self, mines: u16) -> (r: Self)
        requires
            self.wf(),
            self.spec_mines() == 0,
        ensures
            r.wf(),
            r.spec_width() == self.spec_width(),
            r.spec_height() == self.spec_height(),
            r.cells().len() == self.cells().len(),
            r.spec_mines() == spec_min(mines as int, self.cells().len() as int),
            forall|j: int|
                0 <= j < self.cells().len() ==> (#[trigger] r.cells()[j]).state
                    == self.cells()[j].state,
    {
        let ghost w = self.spec_width();
        let ghost h = self.spec_height();
        let ghost s0 = self.cells();
        let mut this = self;
        let spot_count: usize = this.field.len();
        let m: usize = if (mines as usize) <= spot_count {
            mines as usize
        } else {
            spot_count
        };
        proof {
            lemma_count_mines_zero(s0);
        }
        let mut pool: Vec<usize> = Vec::new();
        let mut i: usize = 0;
        while i < spot_count
            invariant
                i <= spot_count,
                pool@.len() == i,
                forall|u: int| 0 <= u < i ==> (#[trigger] pool@[u]) == u,
            decreases spot_count - i,
        {
            pool.push(i);
            i = i + 1;
        }
        let mut placed: usize = 0;
        while placed < m
            invariant
                placed <= m,
                m <= spot_count,
                m == spec_min(mines as int, spot_count as int),
                m <= mines,
                spot_count == s0.len(),
                w == self.spec_width(),
                h == self.spec_height(),
                s0 == self.cells(),
                this.wf(),
                this.spec_width() == w,
                this.spec_height() == h,
                this.cells().len() == s0.len(),
                this.spec_mines() == placed,
                forall|j: int|
                    0 <= j < s0.len() ==> (#[trigger] this.cells()[j]).state == s0[j].state,
                pool@.len() == spot_count - placed,
                pool@.no_duplicates(),
                forall|u: int|
                    0 <= u < pool@.len() ==> ((#[trigger] pool@[u]) as int) < s0.len()
                        && this.cells()[pool@[u] as int].kind matches SpotKind::Empty(_),
            decreases m - placed,
        {
            let ghost ppre = pool@;
            let ghost cpre = this.cells();
            let pick = random_below(pool.len());
            let target = pool.swap_remove(pick);
            proof {
                lemma_swap_remove_distinct(ppre, pick as int);
                assert(target == ppre[pick as int]);
                assert(cpre[target as int].kind matches SpotKind::Empty(_));
            }
            this.place_mine(target);
            placed = placed + 1;
            proof {
                assert forall|u: int|
                    0 <= u < pool@.len() implies ((#[trigger] pool@[u]) as int) < s0.len()
                    && this.cells()[pool@[u] as int].kind matches SpotKind::Empty(_) by {
                    assert(pool@[u] == (if u == pick as int {
                        ppre[ppre.len() - 1]
                    } else {
                        ppre[u]
                    }));
                    assert(pool@[u] != target || pick as int == ppre.len() - 1);
                    if pool@[u] != target {
                        assert(cpre[pool@[u] as int].kind matches SpotKind::Empty(_));
                        assert(this.cells()[pool@[u] as int].kind is Mine <==> cpre[pool@[u] as int].kind
                            is Mine);
                    }
                }
            }
        }
        this
    }

    /// Reveal one candidate cell during flood propagation seeded at `seed`:
    /// if (x, y) lies inside the grid and holds a hidden empty cell, reveal
    /// it, and queue it for further expansion when its own count is zero.
    /// The cell being expanded, `k`, is the seed itself or a cell this flood
    /// already reached, and (x, y) is one of its eight neighbor offsets, so
    /// everything revealed here is reachable from the seed.
    fn flood_visit(
        &mut self,
        stack: &mut Vec<usize>,
        x: i32,
        y: i32,
        Ghost(s0): Ghost<Seq<Spot>>,
        Ghost(seed): Ghost<int>,
        Ghost(k): Ghost<int>,
    )
        requires
            1 <= old(self).spec_width(),
            1 <= old(self).spec_height(),
            old(self).cells().len() == old(self).spec_width() * old(self).spec_height(),
            s0.len() == old(self).cells().len(),
            forall|j: int|
                0 <= j < s0.len() ==> (#[trigger] old(self).cells()[j]).kind == s0[j].kind,
            forall|j: int|
                0 <= j < s0.len() ==> (old(self).cells()[j] != s0[j] ==> s0[j].state is Hidden && (
                #[trigger] old(self).cells()[j]).state is Revealed),
            in_field(old(self).spec_width(), old(self).spec_height(), seed),
            s0[seed].kind == SpotKind::Empty(0),
            in_field(old(self).spec_width(), old(self).spec_height(), k),
            s0[k].kind == SpotKind::Empty(0),
            k == seed || flood_reach(s0, old(self).spec_width(), old(self).spec_height(), seed, k),
            -1 <= x as int - col(old(self).spec_width(), k) <= 1,
            -1 <= y as int - row(old(self).spec_width(), k) <= 1,
            !(x as int == col(old(self).spec_width(), k) && y as int == row(
                old(self).spec_width(),
                k,
            )),
        ensures
            final(self).spec_width() == old(self).spec_width(),
            final(self).spec_height() == old(self).spec_height(),
            final(self).spec_mines() == old(self).spec_mines(),
            final(self).cells().len() == old(self).cells().len(),
            forall|j: int|
                0 <= j < old(self).cells().len() ==> (#[trigger] final(self).cells()[j]).kind
                    == old(self).cells()[j].kind,
            forall|j: int|
                0 <= j < old(self).cells().len() && old(self).cells()[j] != s0[j] ==> (
                #[trigger] final(self).cells()[j]) == old(self).cells()[j],
            forall|j: int|
                0 <= j < old(self).cells().len() && (!floodable(
                    old(self).cells(),
                    old(self).spec_width(),
                    old(self).spec_height(),
                    x as int,
                    y as int,
                ) || j != idx_of(old(self).spec_width(), x as int, y as int)) ==> (#[trigger] final(self).cells()[j]) == old(self).cells()[j],
            floodable(
                old(self).cells(),
                old(self).spec_width(),
                old(self).spec_height(),
                x as int,
                y as int,
            ) ==> final(self).cells()[idx_of(old(self).spec_width(), x as int, y as int)] == (Spot {
                kind: old(self).cells()[idx_of(old(self).spec_width(), x as int, y as int)].kind,
                state: SpotState::Revealed,
            }) && flood_reach(
                s0,
                old(self).spec_width(),
                old(self).spec_height(),
                seed,
                idx_of(old(self).spec_width(), x as int, y as int),
            ) && count_hidden(final(self).cells()) == count_hidden(old(self).cells()) - 1 && old(
                self,
            ).cells()[idx_of(old(self).spec_width(), x as int, y as int)] == s0[idx_of(
                old(self).spec_width(),
                x as int,
                y as int,
            )],
            !floodable(
                old(self).cells(),
                old(self).spec_width(),
                old(self).spec_height(),
                x as int,
                y as int,
            ) ==> final(self).cells() == old(self).cells() && count_hidden(final(self).cells())
                == count_hidden(old(self).cells()),
            (floodable(
                old(self).cells(),
                old(self).spec_width(),
                old(self).spec_height(),
                x as int,
                y as int,
            ) && old(self).cells()[idx_of(old(self).spec_width(), x as int, y as int)].kind
                == SpotKind::Empty(0)) ==> final(stack)@ == old(stack)@.push(
                idx_of(old(self).spec_width(), x as int, y as int) as usize,
            ),
            !(floodable(
                old(self).cells(),
                old(self).spec_width(),
                old(self).spec_height(),
                x as int,
                y as int,
            ) && old(self).cells()[idx_of(old(self).spec_width(), x as int, y as int)].kind
                == SpotKind::Empty(0)) ==> final(stack)@ == old(stack)@,
    {
        let ghost w = self.spec_width();
        let ghost h = self.spec_height();
        let ghost pre = self.cells();
        if x >= 0 && x < self.width as i32 && y >= 0 && y < self.height as i32 {
            proof {
                lemma_idx_coords(w, h, x as int, y as int);
                lemma_area_bound(w, h);
            }
            let index = (y as usize) * (self.width as usize) + (x as usize);
            let c = self.field[index];
            if let SpotState::Hidden = c.state {
                if let SpotKind::Empty(n) = c.kind {
                    self.field[index] = Spot { kind: c.kind, state: SpotState::Revealed };
                    proof {
                        lemma_count_hidden_update(
                            pre,
                            index as int,
                            Spot { kind: c.kind, state: SpotState::Revealed },
                        );
                        let ci = index as int;
                        lemma_field_coords(w, h, k);
                        lemma_offset_neighbor(w, h, k, x as int - col(w, k), y as int - row(w, k));
                        assert(is_neighbor(w, h, k, ci));
                        assert(pre[ci] == s0[ci]);
                        assert(s0[ci].state is Hidden && s0[ci].kind matches SpotKind::Empty(_));
                        if k == seed {
                            lemma_reach_base(s0, w, h, seed, ci);
                        } else {
                            lemma_reach_extend(s0, w, h, seed, k, ci);
                        }
                    }
                    if n == 0 {
                        stack.push(index);
                    }
                }
            }
        }
    }

    /// Expand one cell of the flood worklist: visit each of its eight
    /// neighbor offsets, revealing the hidden empty ones and queueing the
    /// zero-count ones among them.  Afterwards the expanded cell has no
    /// hidden empty neighbor left.
    #[verifier::rlimit(100)]
    #[verifier::spinoff_prover]
    fn flood_expand(
        &mut self,
        stack: &mut Vec<usize>,
        k: usize,
        Ghost(s0): Ghost<Seq<Spot>>,
        Ghost(seed): Ghost<int>,
    )
        requires
            1 <= old(self).spec_width(),
            1 <= old(self).spec_height(),
            old(self).cells().len() == old(self).spec_width() * old(self).spec_height(),
            s0.len() == old(self).cells().len(),
            forall|j: int|
                0 <= j < s0.len() ==> (#[trigger] old(self).cells()[j]).kind == s0[j].kind,
            forall|j: int|
                0 <= j < s0.len() ==> (old(self).cells()[j] != s0[j] ==> s0[j].state is Hidden && (
                #[trigger] old(self).cells()[j]).state is Revealed),
            in_field(old(self).spec_width(), old(self).spec_height(), seed),
            s0[seed].kind == SpotKind::Empty(0),
            (k as int) < s0.len(),
            s0[k as int].kind == SpotKind::Empty(0),
            k as int == seed || flood_reach(
                s0,
                old(self).spec_width(),
                old(self).spec_height(),
                seed,
                k as int,
            ),
        ensures
            final(self).spec_width() == old(self).spec_width(),
            final(self).spec_height() == old(self).spec_height(),
            final(self).spec_mines() == old(self).spec_mines(),
            final(self).cells().len() == old(self).cells().len(),
            forall|j: int|
                0 <= j < old(self).cells().len() ==> (#[trigger] final(self).cells()[j]).kind
                    == old(self).cells()[j].kind,
            forall|j: int|
                0 <= j < old(self).cells().len() && final(self).cells()[j] != old(self).cells()[j]
                    ==> (#[trigger] old(self).cells()[j]) == s0[j] && s0[j].state is Hidden
                    && final(self).cells()[j] == (Spot {
                    kind: s0[j].kind,
                    state: SpotState::Revealed,
                }) && flood_reach(
                    s0,
                    old(self).spec_width(),
                    old(self).spec_height(),
                    seed,
                    j,
                ),
            count_hidden(final(self).cells()) + final(stack)@.len() <= count_hidden(
                old(self).cells(),
            ) + old(stack)@.len(),
            final(stack)@.len() >= old(stack)@.len(),
            forall|t: int|
                0 <= t < old(stack)@.len() ==> (#[trigger] final(stack)@[t]) == old(stack)@[t],
            forall|t: int|
                old(stack)@.len() <= t < final(stack)@.len() ==> ((#[trigger] final(stack)@[t])
                    as int) < s0.len() && final(self).cells()[final(stack)@[t] as int].kind
                    == SpotKind::Empty(0) && final(self).cells()[final(stack)@[t] as int]
                    != s0[final(stack)@[t] as int],
            forall|j: int|
                0 <= j < s0.len() && final(self).cells()[j] != old(self).cells()[j] && (
                #[trigger] final(self).cells()[j]).kind == SpotKind::Empty(0) ==> final(stack)@.contains(j as usize),
            forall|m: int|
                is_neighbor(old(self).spec_width(), old(self).spec_height(), k as int, m)
                    ==> !((#[trigger] final(self).cells()[m]).state is Hidden && final(self).cells()[m].kind matches SpotKind::Empty(_)),
    {
        let ghost w = self.spec_width();
        let ghost h = self.spec_height();
        let ghost ki = k as int;
        let ghost e0 = self.cells();
        let ghost st0 = stack@;
        let (xk, yk) = self.spot_coords(k);
        let mut t: usize = 0;
        while t < 8
            invariant
                t <= 8,
                1 <= w,
                1 <= h,
                self.spec_width() == w,
                self.spec_height() == h,
                self.spec_mines() == old(self).spec_mines(),
                s0.len() == w * h,
                e0.len() == s0.len(),
                self.cells().len() == s0.len(),
                forall|j: int| 0 <= j < s0.len() ==> (#[trigger] e0[j]).kind == s0[j].kind,
                forall|j: int|
                    0 <= j < s0.len() ==> (e0[j] != s0[j] ==> s0[j].state is Hidden && (
                    #[trigger] e0[j]).state is Revealed),
                in_field(w, h, seed),
                s0[seed].kind == SpotKind::Empty(0),
                ki == k as int,
                0 <= ki < s0.len(),
                s0[ki].kind == SpotKind::Empty(0),
                ki == seed || flood_reach(s0, w, h, seed, ki),
                xk as int == col(w, ki),
                yk as int == row(w, ki),
                in_grid(w, h, xk as int, yk as int),
                -0xFFFF <= xk as int <= 0xFFFF,
                -0xFFFF <= yk as int <= 0xFFFF,
                forall|j: int|
                    0 <= j < s0.len() ==> (#[trigger] self.cells()[j]).kind == e0[j].kind,
                forall|j: int|
                    0 <= j < s0.len() && self.cells()[j] != e0[j] ==> (#[trigger] e0[j]) == s0[j]
                        && s0[j].state is Hidden && self.cells()[j] == (Spot {
                        kind: s0[j].kind,
                        state: SpotState::Revealed,
                    }) && flood_reach(s0, w, h, seed, j),
                count_hidden(self.cells()) + stack@.len() <= count_hidden(e0) + st0.len(),
                stack@.len() >= st0.len(),
                forall|u: int| 0 <= u < st0.len() ==> (#[trigger] stack@[u]) == st0[u],
                forall|u: int|
                    st0.len() <= u < stack@.len() ==> ((#[trigger] stack@[u]) as int) < s0.len()
                        && self.cells()[stack@[u] as int].kind == SpotKind::Empty(0)
                        && self.cells()[stack@[u] as int] != s0[stack@[u] as int],
                forall|j: int|
                    0 <= j < s0.len() && self.cells()[j] != e0[j] && (
                    #[trigger] self.cells()[j]).kind == SpotKind::Empty(0) ==> stack@.contains(
                        j as usize,
                    ),
                forall|u: int|
                    0 <= u < t ==> (in_grid(w, h, col(w, ki) + off_dx(u), row(w, ki) + off_dy(u))
                        ==> !((#[trigger] self.cells()[idx_of(
                        w,
                        col(w, ki) + off_dx(u),
                        row(w, ki) + off_dy(u),
                    )]).state is Hidden && self.cells()[idx_of(
                        w,
                        col(w, ki) + off_dx(u),
                        row(w, ki) + off_dy(u),
                    )].kind matches SpotKind::Empty(_))),
            decreases 8 - t,
        {
            let (dx, dy) = offset8(t);
            let ghost pre = self.cells();
            let ghost spre = stack@;
            self.flood_visit(stack, xk + dx, yk + dy, Ghost(s0), Ghost(seed), Ghost(ki));
            proof {
                assert forall|xx: int, yy: int| #[trigger] in_grid(w, h, xx, yy) implies in_field(
                    w,
                    h,
                    idx_of(w, xx, yy),
                ) && col(w, idx_of(w, xx, yy)) == xx && row(w, idx_of(w, xx, yy)) == yy by {
                    lemma_idx_coords(w, h, xx, yy);
                }
                lemma_area_bound(w, h);
                let sf = self.cells();
                let snow = stack@;
                assert forall|u: int|
                    st0.len() <= u < snow.len() implies ((#[trigger] snow[u]) as int) < s0.len()
                    && sf[snow[u] as int].kind == SpotKind::Empty(0) && sf[snow[u] as int]
                    != s0[snow[u] as int] by {
                    if u < spre.len() {
                        assert(snow[u] == spre[u]);
                        let e = spre[u] as int;
                        assert(pre[e] != s0[e]);
                        assert(sf[e] == pre[e]);
                    }
                }
                assert forall|j: int|
                    0 <= j < s0.len() && sf[j] != e0[j] && (#[trigger] sf[j]).kind
                    == SpotKind::Empty(0) implies snow.contains(j as usize) by {
                    if pre[j] != e0[j] {
                        assert(spre.contains(j as usize));
                        let u = choose|u: int| 0 <= u < spre.len() && spre[u] == j as usize;
                        assert(snow[u] == spre[u]);
                        assert(snow.contains(j as usize));
                    } else {
                        assert(sf[j] != pre[j]);
                        assert(snow == spre.push(j as usize));
                        assert(snow[snow.len() - 1] == j as usize);
                        assert(snow.contains(j as usize));
                    }
                }
            }
            t = t + 1;
        }
        proof {
            let sf = self.cells();
            assert forall|m: int| is_neighbor(w, h, ki, m) implies !((#[trigger] sf[m]).state
                is Hidden && sf[m].kind matches SpotKind::Empty(_)) by {
                lemma_field_coords(w, h, ki);
                lemma_field_coords(w, h, m);
                let dx = col(w, m) - col(w, ki);
                let dy = row(w, m) - row(w, ki);
                lemma_offsets_cover(dx, dy);
                let u = choose|u: int| 0 <= u < 8 && off_dx(u) == dx && off_dy(u) == dy;
                lemma_idx_coords(w, h, col(w, m), row(w, m));
                assert(idx_of(w, col(w, ki) + off_dx(u), row(w, ki) + off_dy(u)) == m);
            }
        }
    }

    /// Flood propagation: reveal every cell that a chain of hidden
    /// zero-count cells connects to the seed, including the numbered cells
    /// bordering the zero region, and nothing else.  Mines and flagged
    /// cells are never revealed, and flagged cells also wall off the
    /// propagation.  The worklist holds each cell at most once per reveal,
    /// so the traversal terminates.
    #[verifier::rlimit(100)]
    #[verifier::spinoff_prover]
    pub fn flood_neighbors_reveal(&mut self, index: usize)
        requires
            old(self).wf(),
            index < old(self).cells().len(),
            old(self).cells()[index as int].kind == SpotKind::Empty(0),
        ensures
            final(self).wf(),
            final(self).spec_width() == old(self).spec_width(),
            final(self).spec_height() == old(self).spec_height(),
            final(self).spec_mines() == old(self).spec_mines(),
            final(self).cells().len() == old(self).cells().len(),
            forall|j: int|
                0 <= j < old(self).cells().len() ==> (#[trigger] final(self).cells()[j]).kind
                    == old(self).cells()[j].kind,
            forall|j: int|
                0 <= j < old(self).cells().len() ==> (#[trigger] final(self).cells()[j])
                    == flood_result(
                    old(self).cells(),
                    old(self).spec_width(),
                    old(self).spec_height(),
                    index as int,
                    j,
                ),
            forall|j: int|
                0 <= j < old(self).cells().len() && (#[trigger] final(self).cells()[j]) != old(
                    self,
                ).cells()[j] ==> old(self).cells()[j].state is Hidden && final(self).cells()[j]
                    == (Spot { kind: old(self).cells()[j].kind, state: SpotState::Revealed }),
    {
        let ghost w = self.spec_width();
        let ghost h = self.spec_height();
        let ghost s0 = self.cells();
        let ghost m0 = self.spec_mines();
        let seedi = index;
        let ghost seed = index as int;
        let mut stack: Vec<usize> = Vec::new();
        stack.push(index);
        proof {
            assert(stack@[0] == index);
            assert(stack@.contains(index));
        }
        while stack.len() > 0
            invariant
                1 <= w,
                1 <= h,
                self.spec_width() == w,
                self.spec_height() == h,
                self.spec_mines() == m0,
                s0.len() == w * h,
                self.cells().len() == s0.len(),
                seed == seedi as int,
                in_field(w, h, seed),
                s0[seed].kind == SpotKind::Empty(0),
                forall|j: int| 0 <= j < s0.len() ==> (#[trigger] self.cells()[j]).kind == s0[j].kind,
                forall|j: int|
                    0 <= j < s0.len() ==> (self.cells()[j] != s0[j] ==> s0[j].state is Hidden && (
                    #[trigger] self.cells()[j]).state is Revealed && flood_reach(s0, w, h, seed, j)),
                forall|t: int|
                    0 <= t < stack@.len() ==> ((#[trigger] stack@[t]) as int) < s0.len()
                        && self.cells()[stack@[t] as int].kind == SpotKind::Empty(0) && (stack@[t]
                        == seedi || self.cells()[stack@[t] as int] != s0[stack@[t] as int]),
                forall|k: int, m: int|
                    #![trigger is_neighbor(w, h, k, m)]
                    0 <= k < s0.len() && self.cells()[k].kind == SpotKind::Empty(0) && (k == seed
                        || self.cells()[k] != s0[k]) && !stack@.contains(k as usize) && is_neighbor(
                        w,
                        h,
                        k,
                        m,
                    ) ==> !(self.cells()[m].state is Hidden && self.cells()[m].kind matches
                    SpotKind::Empty(_)),
            decreases count_hidden(self.cells()) + stack@.len(),
        {
            let ghost pre_loop = self.cells();
            let ghost stack_pre = stack@;
            let k = stack.pop().unwrap();
            let ghost ki = k as int;
            proof {
                assert(stack_pre[stack_pre.len() - 1] == k);
                assert(self.cells()[ki].kind == SpotKind::Empty(0));
                assert(k == seedi || self.cells()[ki] != s0[ki]);
                if k != seedi {
                    assert(self.cells()[ki] != s0[ki]);
                    assert(flood_reach(s0, w, h, seed, ki));
                }
            }
            self.flood_expand(&mut stack, k, Ghost(s0), Ghost(seed));
            proof {
                let sf = self.cells();
                lemma_count_hidden_bounds(sf);
                assert forall|t: int|
                    0 <= t < stack@.len() implies ((#[trigger] stack@[t]) as int) < s0.len()
                    && sf[stack@[t] as int].kind == SpotKind::Empty(0) && (stack@[t] == seedi
                    || sf[stack@[t] as int] != s0[stack@[t] as int]) by {
                    if t < stack_pre.len() - 1 {
                        assert(stack@[t] == stack_pre[t]);
                        let e = stack_pre[t] as int;
                        if stack_pre[t] != seedi {
                            assert(pre_loop[e] != s0[e]);
                            assert(sf[e] == pre_loop[e]);
                        }
                    }
                }
                assert forall|kk: int, m: int|
                    #![trigger is_neighbor(w, h, kk, m)]
                    0 <= kk < s0.len() && sf[kk].kind == SpotKind::Empty(0) && (kk == seed
                        || sf[kk] != s0[kk]) && !stack@.contains(kk as usize) && is_neighbor(
                        w,
                        h,
                        kk,
                        m,
                    ) implies !(sf[m].state is Hidden && sf[m].kind matches SpotKind::Empty(
                    _)) by {
                    if kk == ki {
                    } else if sf[kk] != pre_loop[kk] {
                        // kk was revealed by this expansion, so it was queued
                        assert(stack@.contains(kk as usize));
                    } else if stack_pre.contains(kk as usize) {
                        // kk stayed on the worklist: the popped copy was the
                        // last element, and the prefix carries over
                        let tt = choose|tt: int|
                            0 <= tt < stack_pre.len() && stack_pre[tt] == kk as usize;
                        if tt < stack_pre.len() - 1 {
                            assert(stack@[tt] == stack_pre[tt]);
                            assert(stack@.contains(kk as usize));
                        } else {
                            lemma_area_bound(w, h);
                            assert(stack_pre[stack_pre.len() - 1] == kk as usize);
                            assert(kk as usize == k);
                            assert(kk == k as int);
                        }
                    } else {
                        // kk was already fully expanded before this iteration,
                        // and reveals only shrink the set of hidden cells
                        assert(!(pre_loop[m].state is Hidden && pre_loop[m].kind matches
                        SpotKind::Empty(_)));
                        if sf[m] != pre_loop[m] {
                            assert(sf[m].state is Revealed);
                        }
                    }
                }
            }
        }
        proof {
            let sf = self.cells();
            assert forall|j: int| 0 <= j < s0.len() implies (#[trigger] sf[j]) == flood_result(
                s0,
                w,
                h,
                seed,
                j,
            ) by {
                reveal(crate::reach::flood_result);
                if flood_reach(s0, w, h, seed, j) {
                    reveal(crate::reach::flood_reach);
                    let p = choose|p: Seq<int>|
                        flood_path(s0, w, h, p) && p[0] == seed && p.last() == j;
                    lemma_flood_complete(s0, sf, w, h, seed, p);
                    assert(sf[j].state is Revealed);
                    assert(sf[j].kind == s0[j].kind);
                } else {
                    assert(sf[j] == s0[j]);
                }
            }
            lemma_counts_ok_kind_congruent(s0, sf, w, h);
            lemma_count_mines_congruent(s0, sf);
            assert forall|j: int|
                0 <= j < s0.len() && (#[trigger] sf[j]) != s0[j] implies s0[j].state is Hidden
                && sf[j] == (Spot { kind: s0[j].kind, state: SpotState::Revealed }) by {
                reveal(crate::reach::flood_result);
                assert(sf[j] == flood_result(s0, w, h, seed, j));
                if flood_reach(s0, w, h, seed, j) {
                    assert(s0[j].state is Hidden) by {
                        reveal(crate::reach::flood_reach);
                    }
                }
            }
        }
    }

    /// Step on the cell at (x, y).  Only a hidden cell inside the grid can
    /// be stepped on; stepping anywhere else (out of range, or on a flagged
    /// or already revealed cell) changes nothing and reports Invalid.
    /// Stepping on a mine reveals it and reports Boom.  Stepping on an
    /// empty cell reveals it and reports Phew; when the cell's own count is
    /// zero, the whole connected zero-count region and its numbered border
    /// are flood-revealed with it.
    pub fn step(&mut self, x: u16, y: u16) -> (r: StepResult)
        requires
            old(self).wf(),
        ensures
            final(self).wf(),
            final(self).spec_width() == old(self).spec_width(),
            final(self).spec_height() == old(self).spec_height(),
            final(self).spec_mines() == old(self).spec_mines(),
            final(self).cells().len() == old(self).cells().len(),
            forall|j: int|
                0 <= j < old(self).cells().len() ==> (#[trigger] final(self).cells()[j]).kind
                    == old(self).cells()[j].kind,
            (r is Invalid) <==> !(in_grid(
                old(self).spec_width(),
                old(self).spec_height(),
                x as int,
                y as int,
            ) && old(self).cells()[idx_of(old(self).spec_width(), x as int, y as int)].state
                is Hidden),
            r is Invalid ==> final(self).cells() == old(self).cells(),
            (r is Boom) <==> (in_grid(
                old(self).spec_width(),
                old(self).spec_height(),
                x as int,
                y as int,
            ) && old(self).cells()[idx_of(old(self).spec_width(), x as int, y as int)].state
                is Hidden && old(self).cells()[idx_of(
                old(self).spec_width(),
                x as int,
                y as int,
            )].kind is Mine),
            (r is Phew) <==> (in_grid(
                old(self).spec_width(),
                old(self).spec_height(),
                x as int,
                y as int,
            ) && old(self).cells()[idx_of(old(self).spec_width(), x as int, y as int)].state
                is Hidden && old(self).cells()[idx_of(
                old(self).spec_width(),
                x as int,
                y as int,
            )].kind matches SpotKind::Empty(_)),
            !(r is Invalid) ==> forall|j: int|
                0 <= j < old(self).cells().len() ==> (#[trigger] final(self).cells()[j])
                    == flood_result(
                    old(self).cells().update(
                        idx_of(old(self).spec_width(), x as int, y as int),
                        Spot {
                            kind: old(self).cells()[idx_of(
                                old(self).spec_width(),
                                x as int,
                                y as int,
                            )].kind,
                            state: SpotState::Revealed,
                        },
                    ),
                    old(self).spec_width(),
                    old(self).spec_height(),
                    idx_of(old(self).spec_width(), x as int, y as int),
                    j,
                ),
            forall|j: int|
                0 <= j < old(self).cells().len() && old(self).cells()[j].state is Revealed ==> (
                #[trigger] final(self).cells()[j]).state is Revealed,
            forall|j: int|
                0 <= j < old(self).cells().len() && old(self).cells()[j].state is Flagged ==> (
                #[trigger] final(self).cells()[j]) == old(self).cells()[j],
            !(r is Invalid) ==> final(self).cells()[idx_of(
                old(self).spec_width(),
                x as int,
                y as int,
            )].state is Revealed,
            forall|j: int|
                0 <= j < old(self).cells().len() && (#[trigger] final(self).cells()[j]) != old(
                    self,
                ).cells()[j] ==> old(self).cells()[j].state is Hidden && final(self).cells()[j]
                    == (Spot { kind: old(self).cells()[j].kind, state: SpotState::Revealed }),
    {
        let ghost w = self.spec_width();
        let ghost h = self.spec_height();
        let ghost s0 = self.cells();
        if !(x < self.width && y < self.height) {
            return StepResult::Invalid;
        }
        proof {
            lemma_idx_coords(w, h, x as int, y as int);
            lemma_area_bound(w, h);
        }
        let index = (y as usize) * (self.width as usize) + (x as usize);
        let c = self.field[index];
        match c.state {
            SpotState::Hidden => {},
            _ => {
                return StepResult::Invalid;
            },
        }
        self.field[index] = Spot { kind: c.kind, state: SpotState::Revealed };
        let ghost s1 = self.cells();
        proof {
            lemma_counts_ok_kind_congruent(s0, s1, w, h);
            lemma_count_mines_congruent(s0, s1);
        }
        match c.kind {
            SpotKind::Mine => {
                proof {
                    assert forall|j: int| 0 <= j < s0.len() implies (#[trigger] s1[j])
                        == flood_result(s1, w, h, index as int, j) by {
                        reveal(crate::reach::flood_result);
                        reveal(crate::reach::flood_reach);
                        assert(!flood_reach(s1, w, h, index as int, j));
                    }
                }
                StepResult::Boom
            },
            SpotKind::Empty(n) => {
                if n == 0 {
                    self.flood_neighbors_reveal(index);
                } else {
                    proof {
                        assert forall|j: int| 0 <= j < s0.len() implies (#[trigger] s1[j])
                            == flood_result(s1, w, h, index as int, j) by {
                            reveal(crate::reach::flood_result);
                            reveal(crate::reach::flood_reach);
                            assert(s1[index as int].kind == SpotKind::Empty(n));
                            assert(!flood_reach(s1, w, h, index as int, j));
                        }
                    }
                }
                proof {
                    assert(self.cells()[index as int].state is Revealed) by {
                        reveal(crate::reach::flood_result);
                        assert(self.cells()[index as int] == flood_result(
                            s1,
                            w,
                            h,
                            index as int,
                            index as int,
                        ));
                    }
                    assert forall|j: int|
                        0 <= j < s0.len() && (#[trigger] self.cells()[j]) != s0[j] implies
                        s0[j].state is Hidden && self.cells()[j] == (Spot {
                        kind: s0[j].kind,
                        state: SpotState::Revealed,
                    }) by {
                        reveal(crate::reach::flood_result);
                        if j != index as int {
                            assert(self.cells()[j] == flood_result(s1, w, h, index as int, j));
                            if self.cells()[j] != s1[j] {
                                assert(flood_reach(s1, w, h, index as int, j));
                                assert(s1[j].state is Hidden) by {
                                    reveal(crate::reach::flood_reach);
                                }
                            }
                        }
                    }
                    assert forall|j: int|
                        0 <= j < s0.len() && s0[j].state is Revealed implies (
                    #[trigger] self.cells()[j]).state is Revealed by {
                        reveal(crate::reach::flood_result);
                        assert(self.cells()[j] == flood_result(s1, w, h, index as int, j));
                    }
                    assert forall|j: int|
                        0 <= j < s0.len() && s0[j].state is Flagged implies (
                    #[trigger] self.cells()[j]) == s0[j] by {
                        if j != index as int {
                            assert(s1[j] == s0[j]);
                            if self.cells()[j] != s1[j] {
                                reveal(crate::reach::flood_result);
                                reveal(crate::reach::flood_reach);
                                assert(self.cells()[j] == flood_result(s1, w, h, index as int, j));
                                assert(flood_reach(s1, w, h, index as int, j));
                                assert(s1[j].state is Hidden);
                            }
                        }
                    }
                }
                StepResult::Phew
            },
        }
    }

    /// One term of the flagged-neighbor count: 1 when (x, y) is inside the
    /// grid and currently flagged, 0 otherwise.
    fn flagged_one(&self, x: i32, y: i32) -> (r: i32)
        requires
            1 <= self.spec_width(),
            1 <= self.spec_height(),
            self.cells().len() == self.spec_width() * self.spec_height(),
        ensures
            r == one_if_flagged(
                self.cells(),
                self.spec_width(),
                self.spec_height(),
                x as int,
                y as int,
            ),
    {
        if x >= 0 && x < self.width as i32 && y >= 0 && y < self.height as i32 {
            proof {
                lemma_idx_coords(self.spec_width(), self.spec_height(), x as int, y as int);
                lemma_area_bound(self.spec_width(), self.spec_height());
            }
            let index = (y as usize) * (self.width as usize) + (x as usize);
            if let SpotState::Flagged = self.field[index].state {
                1
            } else {
                0
            }
        } else {
            0
        }
    }

    /// Step on one neighbor candidate during a chord resolve: if the cell at
    /// (nx, ny) is still hidden, step on it, reporting whether it was a mine.
    /// The ghost field `s0` is the grid when the resolve started and `idx`
    /// the resolved cell; every change stays a reveal of a hidden cell that
    /// is a neighbor of `idx` or flood-reached from one.
    #[verifier::rlimit(100)]
    #[verifier::spinoff_prover]
    fn resolve_neighbor(
        &mut self,
        nx: i32,
        ny: i32,
        Ghost(s0): Ghost<Seq<Spot>>,
        Ghost(idx): Ghost<int>,
    ) -> (boom: bool)
        requires
            old(self).wf(),
            s0.len() == old(self).cells().len(),
            s0.len() == old(self).spec_width() * old(self).spec_height(),
            0 <= idx < s0.len(),
            forall|j: int|
                0 <= j < s0.len() ==> (#[trigger] old(self).cells()[j]).kind == s0[j].kind,
            forall|j: int|
                0 <= j < s0.len() && old(self).cells()[j] != s0[j] ==> (#[trigger] s0[j]).state
                    is Hidden && old(self).cells()[j] == (Spot {
                    kind: s0[j].kind,
                    state: SpotState::Revealed,
                }),
            forall|j: int|
                0 <= j < s0.len() && old(self).cells()[j] != s0[j] ==> !((#[trigger] s0[j]).kind
                    is Mine),
            forall|j: int|
                0 <= j < s0.len() && (#[trigger] old(self).cells()[j]) != s0[j] ==> chord_reached(
                    s0,
                    old(self).spec_width(),
                    old(self).spec_height(),
                    idx,
                    j,
                ),
            in_grid(old(self).spec_width(), old(self).spec_height(), nx as int, ny as int),
            is_neighbor(
                old(self).spec_width(),
                old(self).spec_height(),
                idx,
                idx_of(old(self).spec_width(), nx as int, ny as int),
            ),
        ensures
            final(self).wf(),
            final(self).spec_width() == old(self).spec_width(),
            final(self).spec_height() == old(self).spec_height(),
            final(self).spec_mines() == old(self).spec_mines(),
            final(self).cells().len() == old(self).cells().len(),
            forall|j: int|
                0 <= j < s0.len() ==> (#[trigger] final(self).cells()[j]).kind == s0[j].kind,
            forall|j: int|
                0 <= j < s0.len() && (#[trigger] final(self).cells()[j]) != old(self).cells()[j]
                    ==> old(self).cells()[j].state is Hidden,
            forall|j: int|
                0 <= j < s0.len() && final(self).cells()[j] != s0[j] ==> (#[trigger] s0[j]).state
                    is Hidden && final(self).cells()[j] == (Spot {
                    kind: s0[j].kind,
                    state: SpotState::Revealed,
                }),
            !boom ==> forall|j: int|
                0 <= j < s0.len() && final(self).cells()[j] != s0[j] ==> !((#[trigger] s0[j]).kind
                    is Mine),
            forall|j: int|
                0 <= j < s0.len() && (#[trigger] final(self).cells()[j]) != s0[j] ==> chord_reached(
                    s0,
                    old(self).spec_width(),
                    old(self).spec_height(),
                    idx,
                    j,
                ),
            s0[idx_of(old(self).spec_width(), nx as int, ny as int)].state is Hidden ==> final(self).cells()[idx_of(old(self).spec_width(), nx as int, ny as int)].state is Revealed,
            !boom ==> !(s0[idx_of(old(self).spec_width(), nx as int, ny as int)].state is Hidden
                && s0[idx_of(old(self).spec_width(), nx as int, ny as int)].kind is Mine),
            boom ==> s0[idx_of(old(self).spec_width(), nx as int, ny as int)].state is Hidden
                && s0[idx_of(old(self).spec_width(), nx as int, ny as int)].kind is Mine && final(self).cells()[idx_of(old(self).spec_width(), nx as int, ny as int)].state is Revealed
                && has_hidden_mine_neighbor(s0, old(self).spec_width(), old(self).spec_height(), idx),
    {
        let ghost w = self.spec_width();
        let ghost h = self.spec_height();
        let ghost pre = self.cells();
        proof {
            lemma_idx_coords(w, h, nx as int, ny as int);
            lemma_area_bound(w, h);
        }
        let nindex = (ny as usize) * (self.width as usize) + (nx as usize);
        let ghost ni = nindex as int;
        let hidden = match self.field[nindex].state {
            SpotState::Hidden => true,
            _ => false,
        };
        if hidden {
            proof {
                assert(pre[ni] == s0[ni]);
            }
            let sr = self.step(nx as u16, ny as u16);
            proof {
                let s1 = pre.update(ni, Spot { kind: pre[ni].kind, state: SpotState::Revealed });
                assert forall|j: int|
                    0 <= j < s0.len() && self.cells()[j] != pre[j] && j != ni implies flood_reach(
                    s0,
                    w,
                    h,
                    ni,
                    j,
                ) && !(s0[j].kind is Mine) by {
                    reveal(crate::reach::flood_result);
                    assert(self.cells()[j] == flood_result(s1, w, h, ni, j));
                    assert(flood_reach(s1, w, h, ni, j));
                    assert(!(s1[j].kind is Mine)) by {
                        reveal(crate::reach::flood_reach);
                    }
                    assert(s1[j].kind == s0[j].kind);
                    lemma_reach_mono(s0, s1, w, h, ni, j);
                }
                assert(self.cells()[ni].state is Revealed) by {
                    reveal(crate::reach::flood_result);
                    assert(self.cells()[ni] == flood_result(s1, w, h, ni, ni));
                }
                assert forall|j: int|
                    0 <= j < s0.len() && self.cells()[j] != s0[j] implies s0[j].state is Hidden
                    && self.cells()[j] == (Spot {
                    kind: s0[j].kind,
                    state: SpotState::Revealed,
                }) by {
                    reveal(crate::reach::flood_result);
                    if self.cells()[j] != pre[j] {
                        assert(self.cells()[j] == flood_result(s1, w, h, ni, j));
                        if j != ni {
                            assert(flood_reach(s1, w, h, ni, j));
                            assert(s1[j].state is Hidden) by {
                                reveal(crate::reach::flood_reach);
                            }
                            assert(pre[j] == s0[j]);
                        }
                    }
                }
                assert forall|j: int|
                    0 <= j < s0.len() && self.cells()[j] != s0[j] implies chord_reached(
                    s0,
                    w,
                    h,
                    idx,
                    j,
                ) by {
                    if self.cells()[j] != pre[j] {
                        reveal(crate::field::chord_reached);
                        assert(is_neighbor(w, h, idx, ni) && s0[ni].state is Hidden && (j == ni
                            || flood_reach(s0, w, h, ni, j)));
                    }
                }
            }
            match sr {
                StepResult::Boom => {
                    proof {
                        reveal(crate::field::has_hidden_mine_neighbor);
                        assert(is_neighbor(w, h, idx, ni) && s0[ni].state is Hidden && s0[ni].kind
                            is Mine);
                    }
                    true
                },
                _ => false,
            }
        } else {
            false
        }
    }

    /// Try to resolve the revealed numbered cell at (x, y): when the player
    /// has flagged exactly as many of its neighbors as its count, every
    /// still-hidden neighbor is stepped on in turn (flood propagation
    /// included).  A misplaced flag then detonates the mine left unflagged:
    /// the first hidden mine neighbor stepped on stops the resolve with
    /// Boom.  If every hidden neighbor is safe the resolve reports Phew.
    /// On anything but a revealed positive-count cell whose flag count
    /// matches exactly, nothing changes and the result is Invalid.
    #[verifier::rlimit(100)]
    #[verifier::spinoff_prover]
    pub fn try_resolve_step(&mut self, x: u16, y: u16) -> (r: StepResult)
        requires
            old(self).wf(),
        ensures
            final(self).wf(),
            final(self).spec_width() == old(self).spec_width(),
            final(self).spec_height() == old(self).spec_height(),
            final(self).spec_mines() == old(self).spec_mines(),
            final(self).cells().len() == old(self).cells().len(),
            forall|j: int|
                0 <= j < old(self).cells().len() ==> (#[trigger] final(self).cells()[j]).kind
                    == old(self).cells()[j].kind,
            (r is Invalid) <==> !resolvable(
                old(self).cells(),
                old(self).spec_width(),
                old(self).spec_height(),
                x as int,
                y as int,
            ),
            r is Invalid ==> final(self).cells() == old(self).cells(),
            !(r is Invalid) ==> ((r is Boom) <==> has_hidden_mine_neighbor(
                old(self).cells(),
                old(self).spec_width(),
                old(self).spec_height(),
                idx_of(old(self).spec_width(), x as int, y as int),
            )),
            forall|j: int|
                0 <= j < old(self).cells().len() && final(self).cells()[j] != old(self).cells()[j]
                    ==> (#[trigger] old(self).cells()[j]).state is Hidden && final(self).cells()[j]
                    == (Spot { kind: old(self).cells()[j].kind, state: SpotState::Revealed }),
            forall|j: int|
                0 <= j < old(self).cells().len() && (#[trigger] final(self).cells()[j]) != old(
                    self,
                ).cells()[j] ==> chord_reached(
                    old(self).cells(),
                    old(self).spec_width(),
                    old(self).spec_height(),
                    idx_of(old(self).spec_width(), x as int, y as int),
                    j,
                ),
            r is Phew ==> forall|k: int|
                is_neighbor(
                    old(self).spec_width(),
                    old(self).spec_height(),
                    idx_of(old(self).spec_width(), x as int, y as int),
                    k,
                ) && (#[trigger] old(self).cells()[k]).state is Hidden ==> final(self).cells()[k].state is Revealed,
            r is Boom ==> exists|k: int|
                #![trigger is_neighbor(old(self).spec_width(), old(self).spec_height(), idx_of(old(self).spec_width(), x as int, y as int), k)]
                is_neighbor(
                    old(self).spec_width(),
                    old(self).spec_height(),
                    idx_of(old(self).spec_width(), x as int, y as int),
                    k,
                ) && old(self).cells()[k].state is Hidden && old(self).cells()[k].kind is Mine
                    && final(self).cells()[k].state is Revealed,
            forall|j: int|
                0 <= j < old(self).cells().len() && old(self).cells()[j].state is Revealed ==> (
                #[trigger] final(self).cells()[j]).state is Revealed,
            forall|j: int|
                0 <= j < old(self).cells().len() && old(self).cells()[j].state is Flagged ==> (
                #[trigger] final(self).cells()[j]) == old(self).cells()[j],
            !(r is Invalid) ==> final(self).cells()[idx_of(
                old(self).spec_width(),
                x as int,
                y as int,
            )].state is Revealed,
            forall|j: int|
                0 <= j < old(self).cells().len() && (#[trigger] final(self).cells()[j]) != old(
                    self,
                ).cells()[j] ==> old(self).cells()[j].state is Hidden && final(self).cells()[j]
                    == (Spot { kind: old(self).cells()[j].kind, state: SpotState::Revealed }),
    {
        let ghost w = self.spec_width();
        let ghost h = self.spec_height();
        let ghost s0 = self.cells();
        if !(x < self.width && y < self.height) {
            return StepResult::Invalid;
        }
        proof {
            lemma_idx_coords(w, h, x as int, y as int);
            lemma_area_bound(w, h);
        }
        let index = (y as usize) * (self.width as usize) + (x as usize);
        let ghost idx = index as int;
        let c = self.field[index];
        match c.state {
            SpotState::Revealed => {},
            _ => {
                return StepResult::Invalid;
            },
        }
        let n = match c.kind {
            SpotKind::Mine => {
                return StepResult::Invalid;
            },
            SpotKind::Empty(n) => n,
        };
        if n <= 0 {
            return StepResult::Invalid;
        }
        let cx = x as i32;
        let cy = y as i32;
        let flag_count = self.flagged_one(cx - 1, cy - 1) + self.flagged_one(cx, cy - 1)
            + self.flagged_one(cx + 1, cy - 1) + self.flagged_one(cx - 1, cy) + self.flagged_one(
            cx + 1,
            cy,
        ) + self.flagged_one(cx - 1, cy + 1) + self.flagged_one(cx, cy + 1) + self.flagged_one(
            cx + 1,
            cy + 1,
        );
        proof {
            assert(flag_count == flag_count_at(s0, w, h, x as int, y as int));
        }
        if n != flag_count {
            return StepResult::Invalid;
        }
        assert(resolvable(s0, w, h, x as int, y as int));
        let mut t: usize = 0;
        while t < 8
            invariant
                t <= 8,
                1 <= w,
                1 <= h,
                cx == x as i32,
                cy == y as i32,
                w == old(self).spec_width(),
                h == old(self).spec_height(),
                s0 == old(self).cells(),
                self.wf(),
                self.spec_width() == w,
                self.spec_height() == h,
                self.spec_mines() == old(self).spec_mines(),
                s0.len() == w * h,
                self.cells().len() == s0.len(),
                0 <= idx < s0.len(),
                idx == idx_of(w, x as int, y as int),
                x as int == col(w, idx),
                y as int == row(w, idx),
                in_grid(w, h, x as int, y as int),
                resolvable(s0, w, h, x as int, y as int),
                forall|j: int|
                    0 <= j < s0.len() ==> (#[trigger] self.cells()[j]).kind == s0[j].kind,
                forall|j: int|
                    0 <= j < s0.len() && self.cells()[j] != s0[j] ==> (#[trigger] s0[j]).state
                        is Hidden && self.cells()[j] == (Spot {
                        kind: s0[j].kind,
                        state: SpotState::Revealed,
                    }),
                forall|j: int|
                    0 <= j < s0.len() && self.cells()[j] != s0[j] ==> !((#[trigger] s0[j]).kind
                        is Mine),
                forall|j: int|
                    0 <= j < s0.len() && (#[trigger] self.cells()[j]) != s0[j] ==> chord_reached(
                        s0,
                        w,
                        h,
                        idx,
                        j,
                    ),
                forall|u: int|
                    0 <= u < t && in_grid(w, h, x as int + off_dx(u), y as int + off_dy(u)) ==> ((
                    #[trigger] s0[idx_of(w, x as int + off_dx(u), y as int + off_dy(u))]).state
                        is Hidden ==> self.cells()[idx_of(
                        w,
                        x as int + off_dx(u),
                        y as int + off_dy(u),
                    )].state is Revealed && !(s0[idx_of(
                        w,
                        x as int + off_dx(u),
                        y as int + off_dy(u),
                    )].kind is Mine)),
            decreases 8 - t,
        {
            let ghost pcells = self.cells();
            let (dx, dy) = offset8(t);
            let nx = cx + dx;
            let ny = cy + dy;
            if nx >= 0 && nx < self.width as i32 && ny >= 0 && ny < self.height as i32 {
                proof {
                    lemma_idx_coords(w, h, nx as int, ny as int);
                    lemma_offset_neighbor(w, h, idx, off_dx(t as int), off_dy(t as int));
                }
                let boom = self.resolve_neighbor(nx, ny, Ghost(s0), Ghost(idx));
                if boom {
                    proof {
                        let ni = idx_of(w, nx as int, ny as int);
                        assert(is_neighbor(w, h, idx, ni) && s0[ni].state is Hidden && s0[ni].kind
                            is Mine && self.cells()[ni].state is Revealed);
                    }
                    return StepResult::Boom;
                }
            }
            proof {
                let sf = self.cells();
                assert forall|u: int|
                    0 <= u <= t && in_grid(w, h, x as int + off_dx(u), y as int + off_dy(u)) && (
                    #[trigger] s0[idx_of(w, x as int + off_dx(u), y as int + off_dy(u))]).state
                    is Hidden implies sf[idx_of(
                    w,
                    x as int + off_dx(u),
                    y as int + off_dy(u),
                )].state is Revealed && !(s0[idx_of(
                    w,
                    x as int + off_dx(u),
                    y as int + off_dy(u),
                )].kind is Mine) by {
                    lemma_idx_coords(w, h, x as int + off_dx(u), y as int + off_dy(u));
                    let cu = idx_of(w, x as int + off_dx(u), y as int + off_dy(u));
                    if u < t {
                        assert(pcells[cu].state is Revealed);
                        if sf[cu] != pcells[cu] {
                            assert(pcells[cu].state is Hidden);
                        }
                    } else {
                        assert(cu == idx_of(w, nx as int, ny as int));
                    }
                }
            }
            t = t + 1;
        }
        proof {
            assert forall|k: int|
                is_neighbor(w, h, idx, k) && (#[trigger] s0[k]).state is Hidden implies
                self.cells()[k].state is Revealed && !(s0[k].kind is Mine) by {
                lemma_field_coords(w, h, idx);
                lemma_field_coords(w, h, k);
                let dx = col(w, k) - col(w, idx);
                let dy = row(w, k) - row(w, idx);
                lemma_offsets_cover(dx, dy);
                let u = choose|u: int| 0 <= u < 8 && off_dx(u) == dx && off_dy(u) == dy;
                lemma_idx_coords(w, h, col(w, k), row(w, k));
                assert(idx_of(w, x as int + off_dx(u), y as int + off_dy(u)) == k);
            }
            assert(!has_hidden_mine_neighbor(s0, w, h, idx)) by {
                reveal(crate::field::has_hidden_mine_neighbor);
            }
        }
        StepResult::Phew
    }

    /// The flat indices of the cells adjacent to the cell at the given
    /// index, in ascending order: every neighbor appears exactly once, and
    /// nothing else does.
    pub fn neighbor_indices(&self, index: usize) -> (r: Vec<usize>)
        requires
            1 <= self.spec_width(),
            1 <= self.spec_height(),
            self.cells().len() == self.spec_width() * self.spec_height(),
            index < self.cells().len(),
        ensures
            forall|u: int|
                0 <= u < r@.len() ==> is_neighbor(
                    self.spec_width(),
                    self.spec_height(),
                    index as int,
                    ((#[trigger] r@[u]) as int),
                ),
            forall|j: int|
                0 <= j < self.cells().len() && is_neighbor(
                    self.spec_width(),
                    self.spec_height(),
                    index as int,
                    j,
                ) ==> r@.contains(j as usize),
            forall|u1: int, u2: int|
                #![trigger r@[u1], r@[u2]]
                0 <= u1 < u2 < r@.len() ==> r@[u1] < r@[u2],
    {
        let ghost w = self.spec_width();
        let ghost h = self.spec_height();
        let (x, y) = self.spot_coords(index);
        let mut r: Vec<usize> = Vec::new();
        let mut t: usize = 0;
        while t < 8
            invariant
                t <= 8,
                1 <= w,
                1 <= h,
                w <= 0xFFFF,
                h <= 0xFFFF,
                w == self.spec_width(),
                h == self.spec_height(),
                self.cells().len() == w * h,
                (index as int) < w * h,
                x as int == col(w, index as int),
                y as int == row(w, index as int),
                in_grid(w, h, x as int, y as int),
                forall|u: int|
                    0 <= u < r@.len() ==> is_neighbor(w, h, index as int, ((#[trigger] r@[u]) as int)),
                forall|u1: int, u2: int|
                    #![trigger r@[u1], r@[u2]]
                    0 <= u1 < u2 < r@.len() ==> r@[u1] < r@[u2],
                forall|v: int, u: int|
                    #![trigger r@[u], off_dx(v)]
                    t <= v < 8 && 0 <= u < r@.len() && in_grid(
                        w,
                        h,
                        x as int + off_dx(v),
                        y as int + off_dy(v),
                    ) ==> ((r@[u]) as int) < idx_of(w, x as int + off_dx(v), y as int + off_dy(v)),
                forall|u: int|
                    #![trigger off_dx(u), off_dy(u)]
                    0 <= u < t && in_grid(w, h, x as int + off_dx(u), y as int + off_dy(u))
                        ==> r@.contains(idx_of(w, x as int + off_dx(u), y as int + off_dy(u)) as usize),
            decreases 8 - t,
        {
            let (dx, dy) = offset8(t);
            let nx = x + dx;
            let ny = y + dy;
            let ghost rpre = r@;
            if nx >= 0 && nx < self.width as i32 && ny >= 0 && ny < self.height as i32 {
                proof {
                    lemma_idx_coords(w, h, nx as int, ny as int);
                    lemma_offset_neighbor(w, h, index as int, off_dx(t as int), off_dy(t as int));
                    lemma_area_bound(w, h);
                }
                r.push((ny as usize) * (self.width as usize) + (nx as usize));
            }
            proof {
                if in_grid(w, h, x as int + off_dx(t as int), y as int + off_dy(t as int)) {
                    let dx1 = off_dx(t as int);
                    let dy1 = off_dy(t as int);
                    assert forall|v: int|
                        t as int + 1 <= v < 8 && in_grid(
                            w,
                            h,
                            x as int + off_dx(v),
                            y as int + off_dy(v),
                        ) implies idx_of(w, x as int + dx1, y as int + dy1) < idx_of(
                        w,
                        x as int + off_dx(v),
                        y as int + off_dy(v),
                    ) by {
                        let dx2 = off_dx(v);
                        let dy2 = off_dy(v);
                        lemma_offsets_lex(t as int, v);
                        assert((y as int + dy1) * w + (x as int + dx1) < (y as int + dy2) * w + (
                        x as int + dx2)) by (nonlinear_arith)
                            requires
                                w >= 1,
                                0 <= x as int + dx1 < w,
                                0 <= x as int + dx2 < w,
                                dy1 < dy2 || (dy1 == dy2 && dx1 < dx2),
                        ;
                    }
                }
                assert forall|u: int|
                    #![trigger off_dx(u), off_dy(u)]
                    0 <= u < t + 1 && in_grid(w, h, x as int + off_dx(u), y as int + off_dy(u))
                    implies r@.contains(
                    idx_of(w, x as int + off_dx(u), y as int + off_dy(u)) as usize,
                ) by {
                    if u < t {
                        assert(rpre.contains(
                            idx_of(w, x as int + off_dx(u), y as int + off_dy(u)) as usize,
                        ));
                        let v = choose|v: int|
                            0 <= v < rpre.len() && rpre[v] == idx_of(
                                w,
                                x as int + off_dx(u),
                                y as int + off_dy(u),
                            ) as usize;
                        assert(r@[v] == rpre[v]);
                        assert(r@.contains(rpre[v]));
                    } else {
                        assert(r@[r@.len() - 1] == idx_of(
                            w,
                            x as int + off_dx(u),
                            y as int + off_dy(u),
                        ) as usize);
                        assert(r@.contains(r@[r@.len() - 1]));
                    }
                }
            }
            t = t + 1;
        }
        proof {
            assert forall|j: int|
                0 <= j < self.cells().len() && is_neighbor(w, h, index as int, j) implies
                r@.contains(j as usize) by {
                lemma_field_coords(w, h, index as int);
                lemma_field_coords(w, h, j);
                let dx = col(w, j) - col(w, index as int);
                let dy = row(w, j) - row(w, index as int);
                lemma_offsets_cover(dx, dy);
                let u = choose|u: int| 0 <= u < 8 && off_dx(u) == dx && off_dy(u) == dy;
                lemma_idx_coords(w, h, col(w, j), row(w, j));
                assert(in_grid(w, h, x as int + off_dx(u), y as int + off_dy(u)));
                assert(idx_of(w, x as int + off_dx(u), y as int + off_dy(u)) == j);
            }
        }
        r
    }

    /// Toggle the flag of the cell at (x, y): a hidden cell becomes flagged
    /// and a flagged cell hidden again, each reported to the caller, so an
    /// external flag counter can be kept without re-reading the grid.  A
    /// revealed cell or out-of-range coordinates change nothing.
    pub fn flag(&mut self, x: u16, y: u16) -> (r: FlagResult)
        requires
            old(self).wf(),
        ensures
            final(self).wf(),
            final(self).spec_width() == old(self).spec_width(),
            final(self).spec_height() == old(self).spec_height(),
            final(self).spec_mines() == old(self).spec_mines(),
            final(self).cells().len() == old(self).cells().len(),
            forall|j: int|
                0 <= j < old(self).cells().len() ==> (#[trigger] final(self).cells()[j]).kind
                    == old(self).cells()[j].kind,
            !in_grid(old(self).spec_width(), old(self).spec_height(), x as int, y as int) ==> r
                == FlagResult::Unchanged && final(self).cells() == old(self).cells(),
            in_grid(old(self).spec_width(), old(self).spec_height(), x as int, y as int) ==> (old(
                self,
            ).cells()[idx_of(old(self).spec_width(), x as int, y as int)].state is Hidden ==> r
                == FlagResult::Added && final(self).cells() == old(self).cells().update(
                idx_of(old(self).spec_width(), x as int, y as int),
                Spot {
                    kind: old(self).cells()[idx_of(
                        old(self).spec_width(),
                        x as int,
                        y as int,
                    )].kind,
                    state: SpotState::Flagged,
                },
            )),
            in_grid(old(self).spec_width(), old(self).spec_height(), x as int, y as int) ==> (old(
                self,
            ).cells()[idx_of(old(self).spec_width(), x as int, y as int)].state is Flagged ==> r
                == FlagResult::Removed && final(self).cells() == old(self).cells().update(
                idx_of(old(self).spec_width(), x as int, y as int),
                Spot {
                    kind: old(self).cells()[idx_of(
                        old(self).spec_width(),
                        x as int,
                        y as int,
                    )].kind,
                    state: SpotState::Hidden,
                },
            )),
            in_grid(old(self).spec_width(), old(self).spec_height(), x as int, y as int) ==> (old(
                self,
            ).cells()[idx_of(old(self).spec_width(), x as int, y as int)].state is Revealed ==> r
                == FlagResult::Unchanged && final(self).cells() == old(self).cells()),
    {
        let ghost w = self.spec_width();
        let ghost h = self.spec_height();
        let ghost s0 = self.cells();
        let mut r = FlagResult::Unchanged;
        if x < self.width && y < self.height {
            proof {
                lemma_idx_coords(w, h, x as int, y as int);
                lemma_area_bound(w, h);
            }
            let index = (y as usize) * (self.width as usize) + (x as usize);
            let c = self.field[index];
            match c.state {
                SpotState::Hidden => {
                    self.field[index] = Spot { kind: c.kind, state: SpotState::Flagged };
                    r = FlagResult::Added;
                },
                SpotState::Flagged => {
                    self.field[index] = Spot { kind: c.kind, state: SpotState::Hidden };
                    r = FlagResult::Removed;
                },
                SpotState::Revealed => {},
            }
        }
        proof {
            lemma_counts_ok_kind_congruent(s0, self.cells(), w, h);
            lemma_count_mines_congruent(s0, self.cells());
        }
        r
    }

    /// The completion query: true exactly when the number of revealed cells
    /// equals the number of cells that hide no mine.  The caller combines
    /// this with the step results to decide when the game is won.
    pub fn is_cleared(&self) -> (r: bool)
        requires
            self.wf(),
        ensures
            r <==> count_revealed(self.cells()) == self.cells().len() - self.spec_mines(),
    {
        let n = self.field.len();
        let mut revealed: usize = 0;
        let mut i: usize = 0;
        while i < n
            invariant
                i <= n,
                n == self.cells().len(),
                revealed <= i,
                revealed as int == count_revealed(self.cells().take(i as int)),
            decreases n - i,
        {
            let c = self.field[i];
            let ghost prev = i as int;
            if let SpotState::Revealed = c.state {
                revealed = revealed + 1;
            }
            i = i + 1;
            proof {
                assert(self.cells().take(prev + 1).drop_last() =~= self.cells().take(prev));
                assert(self.cells().take(prev + 1).last() == self.cells()[prev]);
            }
        }
        proof {
            assert(self.cells().take(n as int) =~= self.cells());
            lemma_count_mines_bounds(self.cells());
        }
        revealed == n - (self.mines as usize)
    }

    /// A copy-free view of the cell at the given coordinates, or None when
    /// they fall outside the grid.
    pub fn spot(&self, x: u16, y: u16) -> (r: Option<&Spot>)
        requires
            self.wf(),
        ensures
            in_grid(self.spec_width(), self.spec_height(), x as int, y as int) ==> (r matches Some(
                c,
            ) && *c == self.cells()[idx_of(self.spec_width(), x as int, y as int)]),
            !in_grid(self.spec_width(), self.spec_height(), x as int, y as int) ==> r is None,
    {
        if x < self.width && y < self.height {
            proof {
                lemma_idx_coords(self.spec_width(), self.spec_height(), x as int, y as int);
                lemma_area_bound(self.spec_width(), self.spec_height());
            }
            let index = (y as usize) * (self.width as usize) + (x as usize);
            Some(&self.field[index])
        } else {
            None
        }
    }
}

} // verus!
