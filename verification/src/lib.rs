//! A verified Monte Carlo tree search engine for two-player, zero-sum,
//! perfect-information games, with UCB1 selection and negamax
//! backpropagation.
//!
//! The engine is generic over the [`game_state::GameState`] capability:
//! enumerate legal moves, tell whose turn it is, apply a move, and value a
//! finished game. Its tree lives in an arena of nodes addressed by stable
//! identifiers ([`tree`]), selection walks it by a fixed-point UCB1 rule
//! ([`ucb`]), and successive searches reuse the subtree of the previously
//! chosen move ([`search`]). Scores are integers throughout: a game reports
//! terminal values as (possibly fixed-point) integers and the engine's
//! arithmetic is verified free of overflow.
//!
//! Around the engine stand a toy integer game ([`toy`]), the piece rules
//! and board of a small capture-and-transform game ([`deacon`], [`board`]),
//! and the lattice coordinates, directions, grid and move generation of a
//! three-dimensional line-drawing game ([`spice`], [`direction`],
//! [`grid`]).

pub mod board;
pub mod deacon;
pub mod direction;
pub mod game_state;
pub mod grid;
pub mod laws;
pub mod ports;
pub mod prune;
pub mod search;
pub mod spice;
pub mod toy;
pub mod tree;
pub mod ucb;

pub use game_state::GameState;
pub use search::{SearchParameters, Searcher};
pub use tree::{NodeId, SearchNode, SearchTree};
