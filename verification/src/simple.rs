//! The simplest strategy: play a uniformly random legal turn.

use vstd::prelude::*;

use crate::board::{
    clone_positions, entries_set, lemma_turn_chain_sowable, lemma_turn_list_nonempty, turn_chain,
    turn_outcomes, Board,
};
use crate::rng::rand_below;
use crate::Searcher;
use rand_pcg::Mcg128Xsl64;

verus! {

/// Chooses uniformly among the completed turns available.
#[derive(Debug)]
pub struct RandomSearcher {
    random: Mcg128Xsl64,
}

impl RandomSearcher {
    pub fn new(random: Mcg128Xsl64) -> (r: RandomSearcher)
        ensures
            r.inv(),
    {
        RandomSearcher { random }
    }
}

impl Searcher for RandomSearcher {
    open spec fn inv(&self) -> bool {
        true
    }

    /// Besides the trait's guarantee, the answer is a complete turn.
    fn sow(&mut self, board: &Board) -> (r: Vec<usize>)
        ensures
            exists|b: crate::board::BoardModel| #[trigger] turn_chain(board@, r@, b),
    {
        let ghost m = board@;
        let entries = board.list_next_with_pos();
        proof {
            lemma_turn_list_nonempty(m);
            let first = crate::board::turn_list(m)[0];
            assert(crate::board::turn_list(m).contains(first));
            assert(turn_outcomes(m).contains(first));
            assert(entries_set(entries@).contains(first));
            assert(entries@.len() > 0);
        }
        let idx = rand_below(&mut self.random, entries.len());
        let ps = clone_positions(&entries[idx].1);
        proof {
            assert(turn_chain(m, ps@, entries@[idx as int].0@));
            lemma_turn_chain_sowable(m, ps@, entries@[idx as int].0@);
        }
        ps
    }
}

} // verus!
