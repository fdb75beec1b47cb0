//! A human-style Sudoku deduction engine: a grid that tracks candidates, figures
//! of board positions, actions on the grid, a catalog of named solving methods,
//! and a solver that applies them in a fixed order.
//!
//! The functions of the library are verified against their contracts; the
//! one exception is the function of `combinations` that calls the crate
//! `itertools`, whose contract is taken on trust. The contracts speak of views: a cell is seen as a `CellView`, a grid as the
//! sequence of its 81 cells, a figure as the ascending sequence of its
//! positions, an action as an `ActionView`, and a set of actions as a set of
//! such views.
pub mod action;
pub mod action_set;
pub mod cell;
pub mod combinations;
pub mod figure;
pub mod grid;
pub mod methods;
pub mod order;
pub mod sequences;
pub mod solver;
pub mod unions;
