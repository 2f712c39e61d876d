//! A Kalah/Mancala game engine: verified board rules (sowing, extra turns,
//! captures, turn enumeration) and adversarial search strategies over them.

pub mod board;
pub mod depth_search;
pub mod evaluator;
pub mod game;
pub mod greedy;
pub mod mctree;
pub mod rng;
pub mod score;
pub mod simple;
pub mod utils;

pub use board::{compact_key, from_compact_key, Board, BoardModel, Side, SowError, PIT, SEED};
pub use depth_search::DepthSearcher;
pub use game::Game;
pub use greedy::GreedySearcher;
pub use mctree::{ChildPolicy, McTreeSearcher, RatioPolicy};
pub use simple::RandomSearcher;
pub use evaluator::{Evaluator, McTreeEvaluator, ScoreDiffEvaluator};
pub use score::{Score, WinRateScore};
pub use utils::{ab_search, random_down};

use vstd::prelude::*;

use crate::board::sowable_chain;

verus! {

/// A move-choosing strategy: asked on an unfinished board, it answers with a
/// non-empty chain of legal sows for the side to move, of which every sow
/// but the last keeps the mover's turn.
pub trait Searcher {
    /// State invariant kept across calls.
    spec fn inv(&self) -> bool;

    fn sow(&mut self, board: &Board) -> (r: Vec<usize>)
        requires
            old(self).inv(),
            board.wf(),
            !board@.finished(),
        ensures
            final(self).inv(),
            r@.len() > 0,
            sowable_chain(board@, r@),
    ;
}

} // verus!
