//! An adversarial search engine for a two-versus-two snake game on a
//! discrete grid: a compact board model, legal-move generation, state
//! transition with elimination resolution, a positional heuristic, and a
//! time-budgeted minimax search with alpha-beta pruning.
#![verifier::loop_isolation(false)]

pub mod board_rep;
pub mod grid;
pub mod mm_search;
pub mod laws;
pub mod minimax;
pub mod simple;
pub mod wire;

use vstd::prelude::*;

verus! {

} // verus!
