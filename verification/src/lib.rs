//! Exact solver for a small pawn-race game on a fixed square grid.
//!
//! Two sides each start with a full rank of pawns at opposite ends of the
//! grid. A pawn steps straight ahead onto an empty cell or captures one cell
//! diagonally ahead. A side loses as soon as an opposing pawn stands on its
//! home rank or it has no legal move.
//!
//! - [`board`]: cells, sides, the board and its model.
//! - [`moves`]: the move generator and the measure that every move lowers.
//! - [`score`]: scores and the preference order on their magnitudes.
//! - [`zobrist`]: position fingerprints and the signatures they are made of.
//! - [`search`]: plain negamax and negamax with alpha-beta cut-offs, both
//!   memoized in a transposition table keyed by fingerprint.
//! - [`results`]: what a search returns and leaves under the fingerprint of
//!   the position it was asked about.
//! - [`entries`]: what a search does to the entries it finds in the table.
//! - [`game`]: the value of a position by the rules alone, and its symmetry.
//! - [`memo`]: when the plain search returns the value of the game.
//! - [`pruning`]: when the alpha-beta search agrees with the plain search.

pub mod board;
pub mod entries;
pub mod game;
pub mod memo;
pub mod moves;
pub mod pruning;
pub mod results;
pub mod score;
pub mod search;
pub mod zobrist;
