//! Backtracking search over finite constraint-satisfaction problems.
//!
//! A [`State`] maps every variable of a problem to its [`Domain`]: a value
//! that has been committed, or the candidates that are still possible. A
//! problem implements [`Searchable`] to say which assignments are feasible
//! and how a fresh assignment prunes the domains around it; the engine
//! branches on a most constrained variable and walks the resulting tree
//! depth first on an explicit stack, lazily with a [`SolutionIterator`] or
//! all at once with [`find_all`].
//!
//! [`pairwise`] derives both operations from a relation between pairs of
//! assignments; [`latin_square`], [`nqueens`] and [`sudoku`] are problems of
//! that kind on the boards of [`grid`]. [`board`] is a Sudoku board of its
//! own, with the propagation built in.
pub mod board;
pub mod domain;
pub mod grid;
pub mod latin_square;
pub mod nqueens;
pub mod pairwise;
pub mod search;
pub mod state;
pub mod sudoku;

pub use domain::{Domain, DomainView, InvalidStateError};
pub use search::{find_all, Searchable, SolutionIterator};
pub use state::{ConfigurationError, State};
