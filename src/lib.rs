//! Decision core of a turn-based grid snake agent: a deterministic rule
//! simulator, a flood-fill territory analysis and an alpha-beta search.

pub mod game;
pub mod grid;
pub mod snake;
pub mod cell;
pub mod outcome;
pub mod state;
pub mod floodfill;
pub mod node;
pub mod search;
pub mod ingest;
pub mod action_set_matrix;
pub mod logic;
