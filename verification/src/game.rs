//! The game driver: holds the board and one strategy per side, and applies
//! the chain of sows a strategy answers with.  The outer play-to-completion
//! loop and all printing live outside the library.

use vstd::prelude::*;
use vstd::slice::slice_index_get;

use crate::board::{
    apply_chain, legal_pos, legal_sow_seq, lemma_conservation, lemma_row_phi_nonneg,
    lemma_seq_sum_nonneg, lemma_sow_props, lemma_sowable_chain_legal, Board, BoardModel, Side,
};
use crate::Searcher;

verus! {

/// Play a line of legal sows on the board, one by one.
#[verifier::loop_isolation(false)]
fn apply_moves(board: &mut Board, ps: &[usize])
    requires
        old(board).wf(),
        legal_sow_seq(old(board)@, ps@),
    ensures
        final(board)@ == apply_chain(old(board)@, ps@),
        final(board).wf(),
        final(board)@.total() == old(board)@.total(),
        ps@.len() > 0 ==> (final(board)@.pits_total() < old(board)@.pits_total()
            || (final(board)@.pits_total() == old(board)@.pits_total() && final(board)@.phi()
            < old(board)@.phi())),
{
    proof {
        lemma_conservation(old(board)@, ps@);
        assert(ps@.subrange(0, ps@.len() as int) =~= ps@);
    }
    let mut i: usize = 0;
    while i < ps.len()
        invariant
            0 <= i <= ps@.len(),
            board.wf(),
            board@.total() == old(board)@.total(),
            legal_sow_seq(board@, ps@.subrange(i as int, ps@.len() as int)),
            apply_chain(board@, ps@.subrange(i as int, ps@.len() as int)) == apply_chain(
                old(board)@,
                ps@,
            ),
        decreases ps@.len() - i,
    {
        let ghost rest = ps@.subrange(i as int, ps@.len() as int);
        proof {
            assert(rest.len() > 0);
            assert(rest[0] == ps@[i as int]);
            assert(legal_pos(board@, ps@[i as int] as int));
            lemma_sow_props(board@, ps@[i as int] as int);
            assert(rest.drop_first() =~= ps@.subrange(i + 1, ps@.len() as int));
        }
        let p = *slice_index_get(ps, i);
        board.sow(p);
        i += 1;
    }
    proof {
        assert(ps@.subrange(ps@.len() as int, ps@.len() as int) =~= Seq::<usize>::empty());
    }
}

/// A two-sided game: the first searcher answers for `Side::First`, the
/// second for `Side::Second`.
pub struct Game<A, B> {
    board: Board,
    turn: usize,
    show_board: bool,
    ai_a: A,
    ai_b: B,
}

impl<A: Searcher, B: Searcher> Game<A, B> {
    /// The game's current position.
    pub closed spec fn board_model(&self) -> BoardModel {
        self.board@
    }

    pub open spec fn inv(&self) -> bool {
        self.board_model().wf() && self.searchers_inv()
    }

    pub closed spec fn searchers_inv(&self) -> bool {
        self.ai_a.inv() && self.ai_b.inv()
    }

    pub fn new(stealing: bool, ai_a: A, ai_b: B) -> (r: Game<A, B>)
        requires
            ai_a.inv(),
            ai_b.inv(),
        ensures
            r.inv(),
            r.board_model() == Board::init_model(stealing),
    {
        Game { board: Board::new(stealing), turn: 0, show_board: false, ai_a, ai_b }
    }

    /// Whether the driver around the library should display positions.
    pub fn show_board(&mut self, show: bool)
        ensures
            final(self).inv() == old(self).inv(),
            final(self).board_model() == old(self).board_model(),
    {
        self.show_board = show;
    }

    /// The current position.
    pub fn board(&self) -> (r: &Board)
        ensures
            r@ == self.board_model(),
    {
        &self.board
    }

    /// Play a fixed line of opening sows before the strategies take over;
    /// the sows may cross turns, each just has to be legal where it falls.
    pub fn first_sow(&mut self, pos_list: &[usize])
        requires
            old(self).inv(),
            legal_sow_seq(old(self).board_model(), pos_list@),
        ensures
            final(self).inv(),
            final(self).board_model() == apply_chain(old(self).board_model(), pos_list@),
            final(self).board_model().total() == old(self).board_model().total(),
    {
        apply_moves(&mut self.board, pos_list);
    }

    /// Ask the side to move for its turn and play it.  Every turn strictly
    /// lowers the (pits in play, row weight) pair, which is what lets a whole
    /// game run to completion.
    pub fn proceed(&mut self)
        requires
            old(self).inv(),
            !old(self).board_model().finished(),
        ensures
            final(self).inv(),
            final(self).board_model().total() == old(self).board_model().total(),
            final(self).board_model().pits_total() < old(self).board_model().pits_total() || (
            final(self).board_model().pits_total() == old(self).board_model().pits_total()
                && final(self).board_model().phi() < old(self).board_model().phi()),
    {
        let moves = if self.board.side() == Side::First {
            self.ai_a.sow(&self.board)
        } else {
            self.ai_b.sow(&self.board)
        };
        proof {
            lemma_sowable_chain_legal(self.board@, moves@);
        }
        apply_moves(&mut self.board, moves.as_slice());
        self.turn = self.turn.wrapping_add(1);
    }

    /// Drive the game to completion and report both final scores.  The loop
    /// terminates because every completed turn strictly lowers the (pits in
    /// play, row weight) pair.  Displaying positions along the way is the
    /// caller's concern; a driver that wants to print runs `proceed` itself.
    pub fn run(&mut self) -> (r: (u8, u8))
        requires
            old(self).inv(),
        ensures
            final(self).inv(),
            final(self).board_model().finished(),
            final(self).board_model().total() == old(self).board_model().total(),
            r.0 as int == final(self).board_model().final_score0(),
            r.1 as int == final(self).board_model().final_score1(),
    {
        let mut done = self.board.is_finished();
        while !done
            invariant
                self.inv(),
                done == self.board_model().finished(),
                self.board_model().total() == old(self).board_model().total(),
            decreases self.board_model().pits_total(), self.board_model().phi(),
        {
            self.proceed();
            done = self.board.is_finished();
            proof {
                lemma_seq_sum_nonneg(self.board_model().seeds[0]);
                lemma_seq_sum_nonneg(self.board_model().seeds[1]);
                lemma_row_phi_nonneg(self.board_model().seeds[0]);
                lemma_row_phi_nonneg(self.board_model().seeds[1]);
            }
        }
        self.board.last_scores()
    }
}

} // verus!
