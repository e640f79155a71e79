//! Analysis of a 7x7 hexagonal board: which tiles to clear so that the space
//! reachable from the pivot cell is worth the most once unsupported border
//! tiles have collapsed.
//!
//! The modules follow the flow of the data: [`grid`] knows the shape of the
//! board, [`board`] which cells are live, [`cascade`] lets the border ring
//! collapse, [`reach`] finds what the pivot still reaches, [`benefit`] scores
//! one set of removals and [`search`] looks for the best one. [`input`]
//! builds boards from text and [`text`] writes them out.

pub mod seqs;
pub mod grid;
pub mod board;
pub mod cascade;
pub mod reach;
pub mod benefit;
pub mod search;
pub mod input;
pub mod text;

pub use board::Board;
pub use grid::{
    get_neighbors, is_outer, is_valid_location, Cell, COLS, MAX_BLOCKS_TO_REMOVE,
    MIMIC_INITIAL_COL, MIMIC_INITIAL_ROW, ROWS,
};
pub use input::{decode, parse_tokens, InputError};
pub use search::SearchState;
