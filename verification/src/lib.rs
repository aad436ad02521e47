//! A verified Minesweeper rules engine: a rectangular grid of cells, some of
//! which hide mines, revealed step by step by the player.  The engine owns
//! the grid, places mines at random without collisions, keeps every empty
//! cell's neighbor-mine count exact, reveals cells with flood propagation
//! through zero-count regions, resolves satisfied numbered cells ("chord"),
//! toggles flags, and answers the completion query.

pub mod field;
pub mod laws;
pub mod grid;
pub mod reach;
pub mod spot;
