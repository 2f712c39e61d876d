//! Position evaluators: the capability every leaf heuristic implements, the
//! exact material-difference evaluator, and the Monte-Carlo rollout
//! evaluator that scores a position by random playouts.

use vstd::prelude::*;

use crate::board::{lemma_seq_sum_nonneg, Board, BoardModel};
use crate::score::{Score, WinRateScore};
use crate::utils::random_down;
use rand_pcg::Mcg128Xsl64;

verus! {

/// Maps a board to a score for the side to move.  An evaluator may carry
/// state (such as a random generator), but a deterministic evaluator's
/// result is a function of the board alone, given by `spec_eval`.
pub trait Evaluator: Sized {
    type Score: Score;

    /// Is `eval` a function of the board alone?
    spec fn deterministic() -> bool;

    /// Does the evaluator value a position independently of which side asks,
    /// flipping the score with the viewpoint?
    spec fn symmetric() -> bool;

    /// The value a deterministic evaluator assigns to a board.
    spec fn spec_eval(m: BoardModel) -> Self::Score;

    /// State invariant kept across calls.
    spec fn inv(&self) -> bool;

    /// A deterministic evaluator's values are supported and lie between the
    /// score sentinels.
    proof fn lemma_eval_bounds(m: BoardModel)
        requires
            m.wf(),
        ensures
            Self::deterministic() ==> (Self::spec_eval(m).in_range()
                && Self::Score::spec_min().spec_le(Self::spec_eval(m)) && Self::spec_eval(
                m,
            ).spec_le(Self::Score::spec_max())),
    ;

    /// Score symmetry: a symmetric evaluator values the same raw position
    /// seen from the other side as the flip of its value.
    proof fn lemma_symmetry(m: BoardModel)
        requires
            m.wf(),
        ensures
            Self::symmetric() ==> Self::spec_eval(m.with_side(m.side.spec_turned()))
                == Self::spec_eval(m).spec_flip(),
    ;

    fn eval(&mut self, board: &Board) -> (r: Self::Score)
        requires
            old(self).inv(),
            board.wf(),
        ensures
            final(self).inv(),
            r.in_range(),
            Self::Score::spec_min().spec_le(r),
            r.spec_le(Self::Score::spec_max()),
            Self::deterministic() ==> r == Self::spec_eval(board@),
    ;
}

/// Values a board by the final-score difference it would settle at if both
/// rows were banked as they stand: an exact, material-only heuristic.
#[derive(Debug, Clone, Copy)]
pub struct ScoreDiffEvaluator;

impl ScoreDiffEvaluator {
    pub fn new() -> (r: ScoreDiffEvaluator)
        ensures
            r.inv(),
    {
        ScoreDiffEvaluator
    }
}

impl Evaluator for ScoreDiffEvaluator {
    type Score = i32;

    open spec fn deterministic() -> bool {
        true
    }

    open spec fn symmetric() -> bool {
        true
    }

    open spec fn spec_eval(m: BoardModel) -> i32 {
        m.rel_last_score() as i32
    }

    open spec fn inv(&self) -> bool {
        true
    }

    proof fn lemma_eval_bounds(m: BoardModel) {
        lemma_seq_sum_nonneg(m.seeds[0]);
        lemma_seq_sum_nonneg(m.seeds[1]);
    }

    proof fn lemma_symmetry(m: BoardModel) {
        lemma_seq_sum_nonneg(m.seeds[0]);
        lemma_seq_sum_nonneg(m.seeds[1]);
    }

    fn eval(&mut self, board: &Board) -> (r: i32) {
        proof {
            lemma_seq_sum_nonneg(board@.seeds[0]);
            lemma_seq_sum_nonneg(board@.seeds[1]);
        }
        board.last_score() as i32
    }
}

/// Upper bound on the rollouts one evaluation may run, so the win/draw/loss
/// counters and the summed score cannot overflow.
pub const MAX_ROLLOUTS: usize = 10000000;

/// Values a board by playing `num` uniformly random games to the end and
/// tallying wins, draws, losses and the summed final score difference.
#[derive(Debug)]
pub struct McTreeEvaluator {
    random: Mcg128Xsl64,
    num: usize,
}

impl McTreeEvaluator {
    /// How many playouts one evaluation runs.
    pub closed spec fn spec_num(&self) -> int {
        self.num as int
    }

    /// The generator the playouts draw from.
    pub closed spec fn spec_rng(&self) -> Mcg128Xsl64 {
        self.random
    }

    pub fn new(random: Mcg128Xsl64, num: usize) -> (r: McTreeEvaluator)
        requires
            num <= MAX_ROLLOUTS,
        ensures
            r.inv(),
            r.spec_num() == num,
            r.spec_rng() == random,
    {
        McTreeEvaluator { random, num }
    }

    pub fn set_num(&mut self, num: usize)
        requires
            num <= MAX_ROLLOUTS,
        ensures
            final(self).inv(),
            final(self).spec_num() == num,
            final(self).spec_rng() == old(self).spec_rng(),
    {
        self.num = num;
    }
}

impl Evaluator for McTreeEvaluator {
    type Score = WinRateScore;

    open spec fn deterministic() -> bool {
        false
    }

    open spec fn symmetric() -> bool {
        false
    }

    open spec fn spec_eval(m: BoardModel) -> WinRateScore {
        vstd::pervasive::arbitrary()
    }

    closed spec fn inv(&self) -> bool {
        self.num <= MAX_ROLLOUTS
    }

    proof fn lemma_eval_bounds(m: BoardModel) {
    }

    proof fn lemma_symmetry(m: BoardModel) {
    }

    /// Besides the trait's range guarantees: whatever the playouts return,
    /// the tally covers exactly the configured number of them, and the
    /// configured count survives the call.
    fn eval(&mut self, board: &Board) -> (r: WinRateScore)
        ensures
            r.rounds() == old(self).spec_num(),
            final(self).spec_num() == old(self).spec_num(),
    {
        let mut score = WinRateScore::new();
        let num = self.num;
        let mut i: usize = 0;
        while i < num
            invariant
                board.wf(),
                self.inv(),
                self.num == old(self).num,
                num == old(self).num,
                num <= MAX_ROLLOUTS,
                0 <= i <= num,
                score.rounds() == i,
                -128 * (i as int) <= score.score_sum() <= 128 * (i as int),
            decreases num - i,
        {
            let finished = random_down(&mut self.random, board);
            let s = finished.last_score();
            proof {
                assert(score.rounds() < u32::MAX);
                assert(-128 * (num as int) >= i32::MIN) by (nonlinear_arith)
                    requires
                        num <= MAX_ROLLOUTS,
                ;
                assert(128 * (num as int) <= i32::MAX) by (nonlinear_arith)
                    requires
                        num <= MAX_ROLLOUTS,
                ;
                assert(-128 * (i as int) - 128 >= -128 * ((i + 1) as int)) by (nonlinear_arith);
                assert(128 * (i as int) + 128 <= 128 * ((i + 1) as int)) by (nonlinear_arith);
            }
            score.count(s as i32);
            i += 1;
        }
        proof {
            assert(-128 * (num as int) >= i32::MIN + 1) by (nonlinear_arith)
                requires
                    num <= MAX_ROLLOUTS,
            ;
        }
        score
    }
}

} // verus!
