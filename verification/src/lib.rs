//! A Langton's-Ant-style cellular automaton.
//!
//! The library is the simulation core: a rectangular grid of two-state
//! cells ([`cell_grid::CellGrid`]) and a single mobile agent
//! ([`ant::Ant`]) whose direction is rotated by the state of the cell it
//! visits. A driving loop outside the library feeds pointer events in and
//! draws the state out; the rules themselves live here, with their
//! contracts.

pub mod ant;
pub mod cell_grid;
pub mod sim;
