//! Tests of the minefield engine: construction, placement, stepping with
//! flood propagation, chord resolution, flagging and the completion query.

use minefield::field::Minefield;
use minefield::spot::{FlagResult, Spot, SpotKind, SpotState, StepResult};

fn kind_at(mf: &Minefield, x: u16, y: u16) -> SpotKind {
    *mf.spot(x, y).unwrap().kind()
}

fn state_at(mf: &Minefield, x: u16, y: u16) -> SpotState {
    *mf.spot(x, y).unwrap().state()
}

#[test]
fn new_minefield() {
    // Create empty test minefield:
    //     0 1 2
    // 0 [       ]
    // 1 [       ]
    // 2 [       ]
    // 3 [       ]
    let width = 3;
    let height = 4;
    let minefield = Minefield::new(width, height);

    for y in 0..height {
        for x in 0..width {
            let spot: Spot = *minefield.spot(x, y).unwrap();
            assert_eq!(*spot.kind(), SpotKind::Empty(0));
            assert_eq!(*spot.state(), SpotState::Hidden);
        }
    }
}

fn kind_at_index(mf: &Minefield, index: usize) -> SpotKind {
    let (x, y) = mf.spot_coords(index);
    kind_at(mf, x as u16, y as u16)
}

fn state_at_index(mf: &Minefield, index: usize) -> SpotState {
    let (x, y) = mf.spot_coords(index);
    state_at(mf, x as u16, y as u16)
}

#[test]
fn place_mines() {
    // Create empty minefield
    let width = 3;
    let height = 4;
    let mut minefield = Minefield::new(width, height);

    // Place Mine
    //     0 1 2
    // 0 [   1 ☢ ]
    // 1 [   1 1 ]
    // 2 [       ]
    // 3 [       ]
    let mine_x = 2;
    let mine_y = 0;
    minefield.place_mine(minefield.spot_index(mine_x, mine_y).unwrap());

    let mine_index = minefield.spot_index(mine_x, mine_y);
    assert_eq!(mine_index, Some(2));

    // Was mine placed correctly?
    let mine_index = mine_index.unwrap();
    assert_eq!(kind_at_index(&minefield, mine_index), SpotKind::Mine);

    // Were the neighbors updated correctly?
    for neighbor_index in minefield.neighbor_indices(mine_index) {
        assert_eq!(kind_at_index(&minefield, neighbor_index), SpotKind::Empty(1));
    }

    // Place another mine
    //     0 1 2
    // 0 [   1 ☢ ]
    // 1 [   1 1 ]
    // 2 [ 1 1   ]
    // 3 [ ☢ 1   ]
    let mine_x = 0;
    let mine_y = 3;
    minefield.place_mine(minefield.spot_index(mine_x, mine_y).unwrap());

    let mine_index = minefield.spot_index(mine_x, mine_y);
    assert_eq!(mine_index, Some(9));

    // Was mine placed correctly?
    let mine_index = mine_index.unwrap();
    assert_eq!(kind_at_index(&minefield, mine_index), SpotKind::Mine);

    // Were the neighbors updated correctly?
    for neighbor_index in minefield.neighbor_indices(mine_index) {
        assert_eq!(kind_at_index(&minefield, neighbor_index), SpotKind::Empty(1));
    }

    // Place another mine
    //     0 1 2
    // 0 [ 1 2 ☢ ]
    // 1 [ ☢ 2 1 ]
    // 2 [ 2 2   ]
    // 3 [ ☢ 1   ]
    let mine_x = 0;
    let mine_y = 1;
    minefield.place_mine(minefield.spot_index(mine_x, mine_y).unwrap());

    let mine_index = minefield.spot_index(mine_x, mine_y);
    assert_eq!(mine_index, Some(3));

    // Was mine placed correctly?
    let mine_index = mine_index.unwrap();
    assert_eq!(kind_at_index(&minefield, mine_index), SpotKind::Mine);

    // Were the neighbors updated correctly?
    for neighbor_index in minefield.neighbor_indices(mine_index) {
        let n_coords = minefield.spot_coords(neighbor_index);
        let expected_mine_count = if n_coords == (0, 0) { 1 } else { 2 };
        assert_eq!(
            kind_at_index(&minefield, neighbor_index),
            SpotKind::Empty(expected_mine_count)
        );
    }
}

#[test]
fn step() {
    // Create empty minefield
    let width = 3;
    let height = 4;
    let mut minefield = Minefield::new(width, height);

    // Place mines
    //     0 1 2
    // 0 [   1 ☢ ]
    // 1 [   1 1 ]
    // 2 [ 1 1   ]
    // 3 [ ☢ 1   ]
    let mine_x = 2;
    let mine_y = 0;
    minefield.place_mine(minefield.spot_index(mine_x, mine_y).unwrap());
    let mine_x = 0;
    let mine_y = 3;
    minefield.place_mine(minefield.spot_index(mine_x, mine_y).unwrap());

    // Step on spot neighboring mine
    let step_x = 1;
    let step_y = 2;
    let step_result = minefield.step(step_x, step_y);

    // Step was success, and only one spot was revealed
    //     0 1 2
    // 0 [ • • • ]
    // 1 [ • • • ]
    // 2 [ • 1 • ]
    // 3 [ • • • ]
    assert_eq!(step_result, StepResult::Phew);
    let step_index = minefield.spot_index(step_x as i32, step_y as i32).unwrap();
    assert_eq!(state_at_index(&minefield, step_index), SpotState::Revealed);
    for neighbor_index in minefield.neighbor_indices(step_index) {
        assert_eq!(state_at_index(&minefield, neighbor_index), SpotState::Hidden);
    }

    // Step on spot with no neighboring mines
    let step_x = 0;
    let step_y = 1;
    let step_result = minefield.step(step_x, step_y);

    // Step was success, and neighbors were flood revealed
    //     0 1 2
    // 0 [   1 • ]
    // 1 [   1 • ]
    // 2 [ 1 1 • ]
    // 3 [ • • • ]
    assert_eq!(step_result, StepResult::Phew);
    let step_index = minefield.spot_index(step_x as i32, step_y as i32).unwrap();
    assert_eq!(state_at_index(&minefield, step_index), SpotState::Revealed);
    for neighbor_index in minefield.neighbor_indices(step_index) {
        assert_eq!(state_at_index(&minefield, neighbor_index), SpotState::Revealed);
    }

    // Step on mine
    let step_x = 2;
    let step_y = 0;
    let step_result = minefield.step(step_x, step_y);

    // Step was Boom, and only mine spot was newly revealed
    //     0 1 2
    // 0 [   1 ☢ ]
    // 1 [   1 • ]
    // 2 [ 1 1 • ]
    // 3 [ • • • ]
    assert_eq!(step_result, StepResult::Boom);
    let step_index = minefield.spot_index(step_x as i32, step_y as i32).unwrap();
    assert_eq!(state_at_index(&minefield, step_index), SpotState::Revealed);
    for neighbor_index in minefield.neighbor_indices(step_index) {
        let n_coords = minefield.spot_coords(neighbor_index);
        let expected_spot_state = if n_coords == (2, 1) {
            SpotState::Hidden
        } else {
            SpotState::Revealed
        };
        assert_eq!(state_at_index(&minefield, neighbor_index), expected_spot_state);
    }
}

#[test]
fn flood_reveal() {
    // Create empty bigger minefield
    //     0 1 2 3 4 5 6 7 8 9
    // 0 [     1 ☢ 1           ]
    // 1 [     1 1 1           ]
    // 2 [           1 1 1     ]
    // 3 [   1 1 1   1 ☢ 1 1 1 ]
    // 4 [   1 ☢ 1   1 1 1 1 ☢ ]
    // 5 [   1 1 1         1 1 ]
    // 6 [         1 1 2 1 1   ]
    // 7 [         1 ☢ 2 ☢ 1   ]
    // 8 [         1 1 2 1 1   ]
    // 9 [                     ]
    let width = 10;
    let height = 10;
    let mut minefield = Minefield::new(width, height);

    let mine_coords = [(2, 4), (5, 7), (7, 7), (9, 4), (6, 3), (3, 0)];
    for (x, y) in mine_coords {
        minefield.place_mine(minefield.spot_index(x, y).unwrap());
    }

    // Place a flag
    //     0 1 2 3 4 5 6 7 8 9
    // 0 [ • • • • • • • • • • ]
    // 1 [ • • • • • ⚐ • • • • ]
    // 2 [ • • • • • • • • • • ]
    // ...
    let flag_x = 5;
    let flag_y = 1;
    assert_eq!(minefield.flag(flag_x, flag_y), FlagResult::Added);

    // Step on spot (x=9, y=6)
    //     0 1 2 3 4 5 6 7 8 9
    // 0 [     1 • • • • • • • ]
    // 1 [     1 1 1 ⚐ • • • • ]
    // 2 [           1 • • • • ]
    // 3 [   1 1 1   1 • • • • ]
    // 4 [   1 • 1   1 1 1 1 • ]
    // 5 [   1 1 1         1 1 ]
    // 6 [         1 1 2 1 1   ]
    // 7 [         1 • • • 1   ]
    // 8 [         1 1 2 1 1   ]
    // 9 [                     ]
    let step_x = 9;
    let step_y = 6;
    let step_result = minefield.step(step_x, step_y);
    assert_eq!(step_result, StepResult::Phew);

    // All mines are still hidden
    for (x, y) in mine_coords {
        assert_eq!(state_at(&minefield, x as u16, y as u16), SpotState::Hidden);
    }

    // Flood revealed the entire maze
    assert_eq!(state_at(&minefield, 7, 5), SpotState::Revealed);

    // Flag is still there
    assert_eq!(state_at(&minefield, flag_x, flag_y), SpotState::Flagged);

    // Insulated portion of field is still hidden
    assert_eq!(state_at(&minefield, 9, 0), SpotState::Hidden);
    assert_eq!(state_at(&minefield, 7, 1), SpotState::Hidden);
}

#[test]
fn single_mine_neighbor_counts() {
    // A mine at (2, 0) of a 3-by-4 grid gives its three valid neighbors a
    // count of one and leaves every other cell at zero.
    let mut mf = Minefield::new(3, 4);
    mf.place_mine(mf.spot_index(2, 0).unwrap());

    for y in 0..4u16 {
        for x in 0..3u16 {
            let expected = if (x, y) == (2, 0) {
                SpotKind::Mine
            } else if (x, y) == (1, 0) || (x, y) == (1, 1) || (x, y) == (2, 1) {
                SpotKind::Empty(1)
            } else {
                SpotKind::Empty(0)
            };
            assert_eq!(kind_at(&mf, x, y), expected);
        }
    }
}

#[test]
fn step_reveals_single_cell_then_floods() {
    // Mines at (2, 0) and (0, 3): stepping (1, 2) reveals only that cell,
    // as a count-one cell; stepping the zero-count cell (0, 1) floods the
    // connected zero region and its numbered border.
    let mut mf = Minefield::new(3, 4);
    mf.place_mine(mf.spot_index(2, 0).unwrap());
    mf.place_mine(mf.spot_index(0, 3).unwrap());

    assert_eq!(mf.step(1, 2), StepResult::Phew);
    assert_eq!(kind_at(&mf, 1, 2), SpotKind::Empty(1));
    for y in 0..4u16 {
        for x in 0..3u16 {
            let expected = if (x, y) == (1, 2) {
                SpotState::Revealed
            } else {
                SpotState::Hidden
            };
            assert_eq!(state_at(&mf, x, y), expected);
        }
    }

    assert_eq!(mf.step(0, 1), StepResult::Phew);
    let revealed = [(0, 0), (1, 0), (0, 1), (1, 1), (0, 2), (1, 2)];
    for y in 0..4u16 {
        for x in 0..3u16 {
            let expected = if revealed.contains(&(x, y)) {
                SpotState::Revealed
            } else {
                SpotState::Hidden
            };
            assert_eq!(state_at(&mf, x, y), expected);
        }
    }
}

#[test]
fn chord_with_right_flag_resolves() {
    // A revealed count-one cell whose single mine neighbor is flagged:
    // resolving it reveals all remaining hidden neighbors (flood included)
    // and, here, clears the whole field.
    let mut mf = Minefield::new(3, 4);
    mf.place_mine(mf.spot_index(2, 0).unwrap());

    assert_eq!(mf.step(1, 1), StepResult::Phew);
    assert_eq!(kind_at(&mf, 1, 1), SpotKind::Empty(1));
    assert_eq!(mf.flag(2, 0), FlagResult::Added);

    assert_eq!(mf.try_resolve_step(1, 1), StepResult::Phew);
    for y in 0..4u16 {
        for x in 0..3u16 {
            if (x, y) == (2, 0) {
                assert_eq!(state_at(&mf, x, y), SpotState::Flagged);
            } else {
                assert_eq!(state_at(&mf, x, y), SpotState::Revealed);
            }
        }
    }
    assert!(mf.is_cleared());
}

#[test]
fn chord_with_wrong_flag_detonates() {
    // Flagging a safe neighbor instead of the mine satisfies the count, so
    // the resolve force-reveals the unflagged neighbors and hits the mine.
    let mut mf = Minefield::new(3, 4);
    mf.place_mine(mf.spot_index(2, 0).unwrap());

    assert_eq!(mf.step(1, 1), StepResult::Phew);
    assert_eq!(mf.flag(2, 1), FlagResult::Added);

    assert_eq!(mf.try_resolve_step(1, 1), StepResult::Boom);
    assert_eq!(state_at(&mf, 2, 0), SpotState::Revealed);
    assert_eq!(kind_at(&mf, 2, 0), SpotKind::Mine);
    assert_eq!(state_at(&mf, 2, 1), SpotState::Flagged);
}

#[test]
fn chord_with_wrong_count_is_rejected() {
    // A resolve with too few or too many flags changes nothing.
    let mut mf = Minefield::new(3, 4);
    mf.place_mine(mf.spot_index(2, 0).unwrap());
    assert_eq!(mf.step(1, 1), StepResult::Phew);

    // No flags at all: too few.
    assert_eq!(mf.try_resolve_step(1, 1), StepResult::Invalid);
    assert_eq!(state_at(&mf, 2, 0), SpotState::Hidden);
    assert_eq!(state_at(&mf, 0, 0), SpotState::Hidden);

    // Two flags on a count-one cell: too many.
    assert_eq!(mf.flag(2, 0), FlagResult::Added);
    assert_eq!(mf.flag(2, 1), FlagResult::Added);
    assert_eq!(mf.try_resolve_step(1, 1), StepResult::Invalid);
    assert_eq!(state_at(&mf, 0, 0), SpotState::Hidden);

    // A hidden cell, a zero-count cell or out-of-range coordinates are not
    // resolvable either.
    assert_eq!(mf.try_resolve_step(0, 3), StepResult::Invalid);
    assert_eq!(mf.try_resolve_step(7, 7), StepResult::Invalid);
}

#[test]
fn flag_toggles_and_reports() {
    // Toggling the flag of one hidden cell twice reports Added then
    // Removed and restores the hidden state.
    let mut mf = Minefield::new(3, 4);
    assert_eq!(mf.flag(1, 1), FlagResult::Added);
    assert_eq!(state_at(&mf, 1, 1), SpotState::Flagged);
    assert_eq!(mf.flag(1, 1), FlagResult::Removed);
    assert_eq!(state_at(&mf, 1, 1), SpotState::Hidden);

    // A revealed cell or out-of-range coordinates are left untouched.
    mf.place_mine(mf.spot_index(2, 0).unwrap());
    assert_eq!(mf.step(1, 1), StepResult::Phew);
    assert_eq!(mf.flag(1, 1), FlagResult::Unchanged);
    assert_eq!(state_at(&mf, 1, 1), SpotState::Revealed);
    assert_eq!(mf.flag(3, 0), FlagResult::Unchanged);
    assert_eq!(mf.flag(0, 100), FlagResult::Unchanged);
}

#[test]
fn full_mine_request_clamps_and_fills() {
    // Requesting as many mines as the grid can hold (or more) clamps the
    // count to the cell count and turns every cell into a mine.
    let mf = Minefield::new(3, 4).with_mines(100);
    assert_eq!(mf.mines(), 12);
    for y in 0..4u16 {
        for x in 0..3u16 {
            assert_eq!(kind_at(&mf, x, y), SpotKind::Mine);
            assert_eq!(state_at(&mf, x, y), SpotState::Hidden);
        }
    }
}

#[test]
fn random_placement_keeps_counts_exact() {
    // However the mines fall, exactly the requested number are placed and
    // every empty cell records the exact number of adjacent mines.
    let mf = Minefield::new(9, 7).with_mines(10);
    assert_eq!(mf.mines(), 10);

    let mut mine_cells = 0;
    for y in 0..7u16 {
        for x in 0..9u16 {
            match kind_at(&mf, x, y) {
                SpotKind::Mine => mine_cells += 1,
                SpotKind::Empty(n) => {
                    let mut around = 0;
                    for dy in -1i32..=1 {
                        for dx in -1i32..=1 {
                            if (dx, dy) == (0, 0) {
                                continue;
                            }
                            let nx = x as i32 + dx;
                            let ny = y as i32 + dy;
                            if nx >= 0 && nx < 9 && ny >= 0 && ny < 7 {
                                if kind_at(&mf, nx as u16, ny as u16) == SpotKind::Mine {
                                    around += 1;
                                }
                            }
                        }
                    }
                    assert_eq!(n, around);
                }
            }
        }
    }
    assert_eq!(mine_cells, 10);
}

#[test]
fn step_rejects_unsteppable_cells() {
    let mut mf = Minefield::new(3, 4);
    mf.place_mine(mf.spot_index(2, 0).unwrap());

    // Out of range.
    assert_eq!(mf.step(3, 0), StepResult::Invalid);
    assert_eq!(mf.step(0, 4), StepResult::Invalid);

    // A flagged cell is not steppable.
    assert_eq!(mf.flag(1, 1), FlagResult::Added);
    assert_eq!(mf.step(1, 1), StepResult::Invalid);
    assert_eq!(state_at(&mf, 1, 1), SpotState::Flagged);

    // An already revealed cell is not steppable again.
    assert_eq!(mf.flag(1, 1), FlagResult::Removed);
    assert_eq!(mf.step(1, 1), StepResult::Phew);
    assert_eq!(mf.step(1, 1), StepResult::Invalid);
    assert_eq!(state_at(&mf, 1, 1), SpotState::Revealed);
}

#[test]
fn cleared_exactly_when_all_safe_cells_revealed() {
    let mut mf = Minefield::new(3, 4);
    mf.place_mine(mf.spot_index(2, 0).unwrap());
    assert!(!mf.is_cleared());

    // Reveal the zero region away from the mine: everything but the mine.
    assert_eq!(mf.step(0, 3), StepResult::Phew);
    assert!(mf.is_cleared());

    // A detonated field is not cleared: only the mine is revealed.
    let mut boomed = Minefield::new(3, 4);
    boomed.place_mine(boomed.spot_index(2, 0).unwrap());
    assert_eq!(boomed.step(2, 0), StepResult::Boom);
    assert!(!boomed.is_cleared());
}

#[test]
fn dimensions_are_clamped_and_reported() {
    let mf = Minefield::new(0, 0);
    assert_eq!(mf.width(), 1);
    assert_eq!(mf.height(), 1);
    assert_eq!(mf.mines(), 0);

    let mf = Minefield::new(1, 2);
    assert_eq!(mf.width(), 1);
    assert_eq!(mf.height(), 2);

    let mf = Minefield::new(7, 5);
    assert_eq!(mf.width(), 7);
    assert_eq!(mf.height(), 5);
    assert!(mf.spot(6, 4).is_some());
    assert!(mf.spot(7, 4).is_none());
    assert!(mf.spot(6, 5).is_none());
    assert_eq!(mf.spot_index(-1, 0), None);
    assert_eq!(mf.spot_index(3, 2), Some(17));
    assert_eq!(mf.spot_coords(17), (3, 2));
}

#[test]
fn reveal_is_monotonic_across_operations() {
    // Once revealed, a cell never goes back to hidden or flagged, whatever
    // is done to the field afterwards.
    let mut mf = Minefield::new(3, 4);
    mf.place_mine(mf.spot_index(2, 0).unwrap());
    assert_eq!(mf.step(1, 1), StepResult::Phew);
    assert_eq!(state_at(&mf, 1, 1), SpotState::Revealed);

    assert_eq!(mf.flag(1, 1), FlagResult::Unchanged);
    assert_eq!(state_at(&mf, 1, 1), SpotState::Revealed);
    assert_eq!(mf.step(1, 1), StepResult::Invalid);
    assert_eq!(state_at(&mf, 1, 1), SpotState::Revealed);
    assert_eq!(mf.step(0, 3), StepResult::Phew);
    assert_eq!(state_at(&mf, 1, 1), SpotState::Revealed);
    assert_eq!(mf.try_resolve_step(1, 1), StepResult::Invalid);
    assert_eq!(state_at(&mf, 1, 1), SpotState::Revealed);
}

#[test]
fn partial_mine_request_is_not_clamped() {
    let mf = Minefield::new(4, 4).with_mines(5);
    assert_eq!(mf.mines(), 5);
    let mut mine_cells = 0;
    for y in 0..4u16 {
        for x in 0..4u16 {
            if kind_at(&mf, x, y) == SpotKind::Mine {
                mine_cells += 1;
            }
        }
    }
    assert_eq!(mine_cells, 5);
}

#[test]
fn narrow_grids_work() {
    // A single-column grid: each cell has at most two neighbors, and the
    // flood stops at the numbered cell bordering the mine.
    let mut mf = Minefield::new(1, 5);
    assert_eq!(mf.width(), 1);
    assert_eq!(mf.height(), 5);
    mf.place_mine(mf.spot_index(0, 2).unwrap());
    assert_eq!(kind_at(&mf, 0, 1), SpotKind::Empty(1));
    assert_eq!(kind_at(&mf, 0, 3), SpotKind::Empty(1));
    assert_eq!(kind_at(&mf, 0, 0), SpotKind::Empty(0));
    assert_eq!(kind_at(&mf, 0, 4), SpotKind::Empty(0));
    assert_eq!(mf.neighbor_indices(2), vec![1, 3]);

    assert_eq!(mf.step(0, 0), StepResult::Phew);
    assert_eq!(state_at(&mf, 0, 0), SpotState::Revealed);
    assert_eq!(state_at(&mf, 0, 1), SpotState::Revealed);
    assert_eq!(state_at(&mf, 0, 2), SpotState::Hidden);
    assert_eq!(state_at(&mf, 0, 3), SpotState::Hidden);
    assert_eq!(state_at(&mf, 0, 4), SpotState::Hidden);

    // A two-column grid: the corner cell's neighbors come back in
    // ascending row-major order.
    let mut two = Minefield::new(2, 3);
    two.place_mine(two.spot_index(1, 1).unwrap());
    assert_eq!(two.neighbor_indices(two.spot_index(0, 1).unwrap()), vec![0, 1, 3, 4, 5]);
    for y in 0..3u16 {
        for x in 0..2u16 {
            if (x, y) != (1, 1) {
                assert_eq!(kind_at(&two, x, y), SpotKind::Empty(1));
            }
        }
    }
    assert_eq!(two.step(0, 0), StepResult::Phew);
    assert_eq!(state_at(&two, 0, 0), SpotState::Revealed);
    assert_eq!(state_at(&two, 1, 0), SpotState::Hidden);
}
