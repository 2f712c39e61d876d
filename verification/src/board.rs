//! Board state of a two-row sowing game (a Kalah/Mancala variant), together
//! with its mathematical model and the rules for legality, sowing, captures
//! and extra turns.

use vstd::prelude::*;
use vstd::slice::slice_index_get;

verus! {

/// Number of pits on each side of the board.
pub const PIT: usize = 6;

/// Seeds placed in every pit when a game starts.
pub const SEED: u8 = 4;

/// Upper bound on the seeds in play (pits plus banked scores).  Keeping the
/// total at or below this bound lets every side-relative score difference fit
/// in an `i8` and rules out arithmetic overflow in the sowing rules.
pub const SEED_LIMIT: u8 = 127;

/// One of the two players.  The side also indexes the row of pits that the
/// player owns.
#[derive(Debug, Clone, Copy, PartialEq, Eq, Hash, Structural)]
pub enum Side {
    First,
    Second,
}

impl Side {
    /// Row index owned by this side.
    pub open spec fn index(self) -> int {
        match self {
            Side::First => 0,
            Side::Second => 1,
        }
    }

    pub open spec fn spec_turned(self) -> Side {
        match self {
            Side::First => Side::Second,
            Side::Second => Side::First,
        }
    }

    #[inline]
    pub fn as_usize(self) -> (r: usize)
        ensures
            r == self.index(),
    {
        match self {
            Side::First => 0,
            Side::Second => 1,
        }
    }

    /// The opposing side.
    #[inline]
    pub fn turned(self) -> (r: Side)
        ensures
            r == self.spec_turned(),
    {
        match self {
            Side::First => Side::Second,
            Side::Second => Side::First,
        }
    }
}

/// Mathematical model of a board: who moves, whether the capture rule is on,
/// two rows of pit counts and the two banked scores.
#[verifier::ext_equal]
pub ghost struct BoardModel {
    pub side: Side,
    pub stealing: bool,
    /// Two rows of `PIT` pit counts; row 0 belongs to `Side::First`.
    pub seeds: Seq<Seq<int>>,
    /// Banked score of each side.
    pub score: Seq<int>,
}

/// Sum of a sequence of pit counts.
pub open spec fn seq_sum(s: Seq<int>) -> int
    decreases s.len(),
{
    if s.len() == 0 {
        0
    } else {
        seq_sum(s.drop_last()) + s.last()
    }
}

pub open spec fn all_zero(s: Seq<int>) -> bool {
    forall|i: int| 0 <= i < s.len() ==> s[i] == 0
}

pub open spec fn nonneg(s: Seq<int>) -> bool {
    forall|i: int| 0 <= i < s.len() ==> s[i] >= 0
}

/// A row of pit counts as mathematical integers.
pub open spec fn to_int_seq(s: Seq<u8>) -> Seq<int> {
    s.map_values(|x: u8| x as int)
}

impl BoardModel {
    /// The row of pits owned by `side`.
    pub open spec fn row(self, side: Side) -> Seq<int> {
        self.seeds[side.index()]
    }

    /// The banked score of `side`.
    pub open spec fn banked(self, side: Side) -> int {
        self.score[side.index()]
    }

    /// Seeds still in play plus both banked scores; constant over a game.
    pub open spec fn total(self) -> int {
        seq_sum(self.seeds[0]) + seq_sum(self.seeds[1]) + self.score[0] + self.score[1]
    }

    /// Seeds still sitting in pits.
    pub open spec fn pits_total(self) -> int {
        seq_sum(self.seeds[0]) + seq_sum(self.seeds[1])
    }

    /// The game is over as soon as either row is empty.
    pub open spec fn finished(self) -> bool {
        all_zero(self.seeds[0]) || all_zero(self.seeds[1])
    }

    /// Banked score difference seen from the side to move.
    pub open spec fn rel_score(self) -> int {
        if self.side == Side::First {
            self.score[0] - self.score[1]
        } else {
            self.score[1] - self.score[0]
        }
    }

    /// Final score of `Side::First`: banked seeds plus seeds left in the row.
    pub open spec fn final_score0(self) -> int {
        self.score[0] + seq_sum(self.seeds[0])
    }

    /// Final score of `Side::Second`.
    pub open spec fn final_score1(self) -> int {
        self.score[1] + seq_sum(self.seeds[1])
    }

    /// End-of-game score difference seen from the side to move.
    pub open spec fn rel_last_score(self) -> int {
        if self.side == Side::First {
            self.final_score0() - self.final_score1()
        } else {
            self.final_score1() - self.final_score0()
        }
    }

    /// Shape and bounds every reachable board satisfies.
    pub open spec fn wf(self) -> bool {
        &&& self.seeds.len() == 2
        &&& self.seeds[0].len() == PIT
        &&& self.seeds[1].len() == PIT
        &&& self.score.len() == 2
        &&& nonneg(self.seeds[0])
        &&& nonneg(self.seeds[1])
        &&& self.score[0] >= 0
        &&& self.score[1] >= 0
        &&& self.total() <= SEED_LIMIT
    }
}

/// A recoverable reason why a pit may not be sown.
#[derive(Debug, Clone, Copy, PartialEq, Eq, Structural)]
pub enum SowError {
    /// The pit index lies outside `[0, PIT)`.
    InvalidPosition,
    /// The chosen pit holds no seeds.
    EmptyPit,
}

/// Pit counts with one seed added to every index in `[lo, hi)`.
pub open spec fn inc_range(s: Seq<int>, lo: int, hi: int) -> Seq<int> {
    Seq::new(s.len(), |i: int| if lo <= i < hi { s[i] + 1 } else { s[i] })
}

impl BoardModel {
    pub open spec fn with_row(self, side: Side, row: Seq<int>) -> BoardModel {
        BoardModel {
            side: self.side,
            stealing: self.stealing,
            seeds: self.seeds.update(side.index(), row),
            score: self.score,
        }
    }

    pub open spec fn with_score(self, side: Side, v: int) -> BoardModel {
        BoardModel {
            side: self.side,
            stealing: self.stealing,
            seeds: self.seeds,
            score: self.score.update(side.index(), v),
        }
    }

    pub open spec fn with_side(self, side: Side) -> BoardModel {
        BoardModel { side, stealing: self.stealing, seeds: self.seeds, score: self.score }
    }
}

/// `pos` names a pit of the mover's row that holds at least one seed.
pub open spec fn legal_pos(m: BoardModel, pos: int) -> bool {
    0 <= pos < PIT && m.row(m.side)[pos] > 0
}

/// Distribution step of a sow: starting at pit `pos` of `side`'s row, drop
/// `num` seeds one per pit, crediting the mover's store once per lap around
/// the mover's own row, and report the row and pit of the final seed.  An end
/// position of `PIT` stands for the mover's store.
pub open spec fn spec_move_seed(m: BoardModel, side: Side, pos: int, num: int) -> (
    BoardModel,
    Side,
    int,
)
    decreases num,
    when 1 <= num && 0 <= pos <= PIT && (m.side == side || pos < PIT)
{
    if pos + num <= PIT {
        (m.with_row(side, inc_range(m.row(side), pos, pos + num)), side, pos + num - 1)
    } else {
        let m1 = m.with_row(side, inc_range(m.row(side), pos, PIT as int));
        if m.side == side {
            let m2 = m1.with_score(side, m1.banked(side) + 1);
            if pos + num == PIT + 1 {
                (m2, side, PIT as int)
            } else {
                spec_move_seed(m2, side.spec_turned(), 0, pos + num - (PIT as int) - 1)
            }
        } else {
            spec_move_seed(m1, side.spec_turned(), 0, pos + num - (PIT as int))
        }
    }
}

/// One complete sow from pit `pos`: lift the pit, distribute the seeds, then
/// settle the extra-turn and capture rules and pass the turn when owed.
pub open spec fn spec_sow(m: BoardModel, pos: int) -> BoardModel {
    let num = m.row(m.side)[pos];
    let lifted = m.with_row(m.side, m.row(m.side).update(pos, 0));
    let (m2, side, end) = spec_move_seed(lifted, m.side, pos + 1, num);
    if side == m.side {
        if end == PIT {
            if !m2.finished() {
                m2  // the final seed reached the mover's store: the mover sows again
            } else {
                m2.with_side(m.side.spec_turned())
            }
        } else {
            let opp_pos = PIT - 1 - end;
            let opp = m2.row(side.spec_turned())[opp_pos];
            if m.stealing && m2.row(side)[end] == 1 && opp > 0 {
                // capture: the landing pit was empty and the mirror pit is not
                let m3 = m2.with_row(side, m2.row(side).update(end, 0));
                let m4 = m3.with_row(
                    side.spec_turned(),
                    m3.row(side.spec_turned()).update(opp_pos, 0),
                );
                m4.with_score(side, m4.banked(side) + opp + 1).with_side(m.side.spec_turned())
            } else {
                m2.with_side(m.side.spec_turned())
            }
        }
    } else {
        m2.with_side(m.side.spec_turned())
    }
}

/// Arguments on which `spec_move_seed` is defined.
pub open spec fn move_domain(m: BoardModel, side: Side, pos: int, num: int) -> bool {
    &&& 1 <= num
    &&& 0 <= pos <= PIT
    &&& (m.side == side || pos < PIT)
}

/// Adding one seed to each pit of a range raises the row sum by the width of
/// the range.
pub proof fn lemma_inc_range_sum(s: Seq<int>, lo: int, hi: int)
    requires
        0 <= lo <= hi <= s.len(),
    ensures
        seq_sum(inc_range(s, lo, hi)) == seq_sum(s) + (hi - lo),
    decreases hi - lo,
{
    if lo == hi {
        assert(inc_range(s, lo, hi) =~= s);
    } else {
        lemma_inc_range_sum(s, lo, hi - 1);
        let prev = inc_range(s, lo, hi - 1);
        assert(inc_range(s, lo, hi) =~= prev.update(hi - 1, s[hi - 1] + 1));
        lemma_seq_sum_update(prev, hi - 1, s[hi - 1] + 1);
    }
}

/// Replacing one row changes the board total by the difference of the sums.
pub proof fn lemma_with_row_total(m: BoardModel, side: Side, row: Seq<int>)
    requires
        m.seeds.len() == 2,
    ensures
        m.with_row(side, row).total() == m.total() - seq_sum(m.row(side)) + seq_sum(row),
{
}

/// What one distribution step does to the board: the total grows by exactly
/// the seeds dropped, scores never shrink, the mover and rule flag are
/// untouched, and a final seed in the store implies the mover banked a seed.
pub proof fn lemma_move_seed_props(m: BoardModel, side: Side, pos: int, num: int)
    requires
        move_domain(m, side, pos, num),
        m.seeds.len() == 2,
        m.seeds[0].len() == PIT,
        m.seeds[1].len() == PIT,
        m.score.len() == 2,
        nonneg(m.seeds[0]),
        nonneg(m.seeds[1]),
        m.score[0] >= 0,
        m.score[1] >= 0,
    ensures
        ({
            let (m2, rs, re) = spec_move_seed(m, side, pos, num);
            &&& m2.seeds.len() == 2
            &&& m2.seeds[0].len() == PIT
            &&& m2.seeds[1].len() == PIT
            &&& m2.score.len() == 2
            &&& nonneg(m2.seeds[0])
            &&& nonneg(m2.seeds[1])
            &&& m2.side == m.side
            &&& m2.stealing == m.stealing
            &&& m2.total() == m.total() + num
            &&& m2.score[0] >= m.score[0]
            &&& m2.score[1] >= m.score[1]
            &&& 0 <= re <= PIT
            &&& (re == PIT ==> rs == m.side)
            &&& ((re == PIT || (pos + num > PIT && side == m.side)) ==> m2.score[0] + m2.score[1]
                >= m.score[0] + m.score[1] + 1)
            &&& m2.banked(m.side.spec_turned()) == m.banked(m.side.spec_turned())
        }),
    decreases num,
{
    if pos + num <= PIT {
        let row2 = inc_range(m.row(side), pos, pos + num);
        lemma_inc_range_sum(m.row(side), pos, pos + num);
        lemma_with_row_total(m, side, row2);
    } else {
        let row2 = inc_range(m.row(side), pos, PIT as int);
        lemma_inc_range_sum(m.row(side), pos, PIT as int);
        let m1 = m.with_row(side, row2);
        lemma_with_row_total(m, side, row2);
        if m.side == side {
            let m2 = m1.with_score(side, m1.banked(side) + 1);
            assert(m2.total() == m1.total() + 1);
            if pos + num == PIT + 1 {
            } else {
                lemma_move_seed_props(m2, side.spec_turned(), 0, pos + num - (PIT as int) - 1);
            }
        } else {
            lemma_move_seed_props(m1, side.spec_turned(), 0, pos + num - (PIT as int));
        }
    }
}

/// Weight of a row for the termination argument: each seed counts its
/// distance to the end of the row, so sowing within a row strictly lowers the
/// weight while the pit total stays put.
pub open spec fn row_phi(s: Seq<int>) -> int
    decreases s.len(),
{
    if s.len() == 0 {
        0
    } else {
        s[0] * s.len() + row_phi(s.drop_first())
    }
}

impl BoardModel {
    /// Board-wide termination weight.
    pub open spec fn phi(self) -> int {
        row_phi(self.seeds[0]) + row_phi(self.seeds[1])
    }
}

pub proof fn lemma_row_phi_nonneg(s: Seq<int>)
    requires
        nonneg(s),
    ensures
        row_phi(s) >= 0,
    decreases s.len(),
{
    if s.len() > 0 {
        assert(nonneg(s.drop_first()));
        lemma_row_phi_nonneg(s.drop_first());
        assert(s[0] * s.len() >= 0) by (nonlinear_arith)
            requires
                s[0] >= 0 && s.len() >= 0,
        ;
    }
}

pub proof fn lemma_row_phi_update(s: Seq<int>, i: int, v: int)
    requires
        0 <= i < s.len(),
    ensures
        row_phi(s.update(i, v)) == row_phi(s) + (v - s[i]) * (s.len() - i),
    decreases s.len(),
{
    let t = s.update(i, v);
    if i == 0 {
        assert(t.drop_first() =~= s.drop_first());
        assert(t[0] == v);
        assert(v * s.len() - s[0] * s.len() == (v - s[0]) * (s.len() - 0)) by (nonlinear_arith);
    } else {
        assert(t.drop_first() =~= s.drop_first().update(i - 1, v));
        lemma_row_phi_update(s.drop_first(), i - 1, v);
        assert(s.drop_first()[i - 1] == s[i]);
        assert(t[0] == s[0]);
    }
}

pub proof fn lemma_row_phi_inc_range_bound(s: Seq<int>, lo: int, hi: int)
    requires
        0 <= lo <= hi <= s.len(),
    ensures
        row_phi(inc_range(s, lo, hi)) <= row_phi(s) + (hi - lo) * (s.len() - lo),
    decreases hi - lo,
{
    if lo == hi {
        assert(inc_range(s, lo, hi) =~= s);
        assert((hi - lo) * (s.len() - lo) == 0) by (nonlinear_arith)
            requires
                hi == lo,
        ;
    } else {
        lemma_row_phi_inc_range_bound(s, lo, hi - 1);
        let prev = inc_range(s, lo, hi - 1);
        let v = s[hi - 1] + 1;
        assert(inc_range(s, lo, hi) =~= prev.update(hi - 1, v));
        lemma_row_phi_update(prev, hi - 1, v);
        assert(prev[hi - 1] == s[hi - 1]);
        let wp = row_phi(prev);
        let wh = row_phi(inc_range(s, lo, hi));
        let w = row_phi(s);
        assert(wh <= w + (hi - lo) * (s.len() - lo)) by (nonlinear_arith)
            requires
                wh == wp + (v - prev[hi - 1]) * (prev.len() - (hi - 1)),
                wp <= w + (hi - 1 - lo) * (s.len() - lo),
                v == prev[hi - 1] + 1,
                prev.len() == s.len(),
                0 <= lo < hi <= s.len(),
        ;
    }
}

/// What one legal sow does to the board: the total is conserved, the rule
/// flag survives, scores never shrink, keeping the turn implies the mover
/// banked a seed on an unfinished board, and the pair (pits in play, row
/// weight) strictly drops lexicographically, so turn chains and games are
/// finite.
pub proof fn lemma_sow_props(m: BoardModel, pos: int)
    requires
        m.wf(),
        legal_pos(m, pos),
    ensures
        ({
            let n = spec_sow(m, pos);
            &&& n.wf()
            &&& n.total() == m.total()
            &&& n.stealing == m.stealing
            &&& (n.side == m.side || n.side == m.side.spec_turned())
            &&& (n.side == m.side ==> !n.finished() && n.banked(m.side) > m.banked(m.side))
            &&& n.score[0] >= m.score[0]
            &&& n.score[1] >= m.score[1]
            &&& (n.pits_total() < m.pits_total() || (n.pits_total() == m.pits_total() && n.phi()
                < m.phi()))
        }),
{
    let num = m.row(m.side)[pos];
    let lifted = m.with_row(m.side, m.row(m.side).update(pos, 0));
    lemma_seq_sum_nonneg(m.seeds[0]);
    lemma_seq_sum_nonneg(m.seeds[1]);
    lemma_seq_sum_elem_bound(m.row(m.side), pos);
    lemma_seq_sum_update(m.row(m.side), pos, 0);
    lemma_with_row_total(m, m.side, m.row(m.side).update(pos, 0));
    lemma_move_seed_props(lifted, m.side, pos + 1, num);
    let (m2, side, end) = spec_move_seed(lifted, m.side, pos + 1, num);
    lemma_seq_sum_nonneg(m2.seeds[0]);
    lemma_seq_sum_nonneg(m2.seeds[1]);
    let n = spec_sow(m, pos);

    // pit totals before and after the distribution
    assert(m2.total() == m.total());
    assert(m2.pits_total() == m.pits_total() - (m2.score[0] + m2.score[1] - m.score[0]
        - m.score[1]));

    if pos + 1 + num <= PIT {
        // the sow stays inside the mover's row: the store is never reached
        assert(side == m.side && end == pos + num);
        // row weight strictly drops even though the pit total may not
        let s0 = m.row(m.side);
        let s1 = s0.update(pos, 0);
        lemma_row_phi_update(s0, pos, 0);
        lemma_row_phi_inc_range_bound(s1, pos + 1, pos + 1 + num);
        let w0 = row_phi(s0);
        let w1 = row_phi(s1);
        let w2 = row_phi(inc_range(s1, pos + 1, pos + 1 + num));
        assert(w2 < w0) by (nonlinear_arith)
            requires
                w1 == w0 + (0 - s0[pos]) * (s0.len() - pos),
                w2 <= w1 + (pos + 1 + num - (pos + 1)) * (s1.len() - (pos + 1)),
                s0[pos] == num,
                s1.len() == s0.len(),
                num >= 1,
                0 <= pos < s0.len(),
        ;
        // the untouched row keeps its weight; the mover's row lost at least 1
        if m.side == Side::First {
            assert(m2.seeds[1] == m.seeds[1]);
            assert(m2.seeds[0] == inc_range(s1, pos + 1, pos + 1 + num));
            assert(row_phi(m2.seeds[0]) < row_phi(m.seeds[0]));
        } else {
            assert(m2.seeds[0] == m.seeds[0]);
            assert(m2.seeds[1] == inc_range(s1, pos + 1, pos + 1 + num));
            assert(row_phi(m2.seeds[1]) < row_phi(m.seeds[1]));
        }
        assert(m2.phi() < m.phi());
        assert(m2.pits_total() == m.pits_total());
        // settle capture and turn passing
        let opp_pos = PIT - 1 - end;
        let opp = m2.row(side.spec_turned())[opp_pos];
        if m.stealing && m2.row(side)[end] == 1 && opp > 0 {
            lemma_steal_props(m, m2, side, end);
        } else {
            assert(n == m2.with_side(m.side.spec_turned()));
        }
    } else {
        // the final lap left the mover's row, so the mover's store was passed
        // and the pit total strictly dropped
        assert(m2.score[0] + m2.score[1] >= m.score[0] + m.score[1] + 1);
        assert(m2.pits_total() < m.pits_total());
        if side == m.side {
            if end == PIT {
                lemma_row_phi_nonneg(m2.seeds[0]);
                lemma_row_phi_nonneg(m2.seeds[1]);
                if !m2.finished() {
                    assert(n == m2);
                    assert(n.banked(m.side) > m.banked(m.side));
                } else {
                    assert(n == m2.with_side(m.side.spec_turned()));
                }
            } else {
                let opp_pos = PIT - 1 - end;
                let opp = m2.row(side.spec_turned())[opp_pos];
                if m.stealing && m2.row(side)[end] == 1 && opp > 0 {
                    lemma_steal_props(m, m2, side, end);
                } else {
                    assert(n == m2.with_side(m.side.spec_turned()));
                }
            }
        } else {
            assert(n == m2.with_side(m.side.spec_turned()));
        }
    }
    lemma_row_phi_nonneg(n.seeds[0]);
    lemma_row_phi_nonneg(n.seeds[1]);
}

/// The capture step empties the landing pit and its mirror and banks their
/// seeds for the mover; pit totals drop, scores stay monotone, the total is
/// conserved.
proof fn lemma_steal_props(m: BoardModel, m2: BoardModel, side: Side, end: int)
    requires
        m2.seeds.len() == 2,
        m2.seeds[0].len() == PIT,
        m2.seeds[1].len() == PIT,
        m2.score.len() == 2,
        nonneg(m2.seeds[0]),
        nonneg(m2.seeds[1]),
        m2.score[0] >= 0,
        m2.score[1] >= 0,
        side == m2.side,
        0 <= end < PIT,
        m2.row(side)[end] == 1,
        m2.row(side.spec_turned())[PIT - 1 - end] > 0,
    ensures
        ({
            let opp_pos = PIT - 1 - end;
            let opp = m2.row(side.spec_turned())[opp_pos];
            let m3 = m2.with_row(side, m2.row(side).update(end, 0));
            let m4 = m3.with_row(side.spec_turned(), m3.row(side.spec_turned()).update(opp_pos, 0));
            let m5 = m4.with_score(side, m4.banked(side) + opp + 1);
            &&& m5.total() == m2.total()
            &&& m5.pits_total() == m2.pits_total() - opp - 1
            &&& m5.score[0] >= m2.score[0]
            &&& m5.score[1] >= m2.score[1]
            &&& nonneg(m5.seeds[0])
            &&& nonneg(m5.seeds[1])
            &&& m5.score[0] >= 0
            &&& m5.score[1] >= 0
            &&& m5.seeds[0].len() == PIT
            &&& m5.seeds[1].len() == PIT
            &&& m5.seeds.len() == 2
            &&& m5.score.len() == 2
            &&& m5.side == m2.side
            &&& m5.stealing == m2.stealing
        }),
{
    let opp_pos = PIT - 1 - end;
    let opp = m2.row(side.spec_turned())[opp_pos];
    let m3 = m2.with_row(side, m2.row(side).update(end, 0));
    lemma_seq_sum_update(m2.row(side), end, 0);
    lemma_with_row_total(m2, side, m2.row(side).update(end, 0));
    let m4 = m3.with_row(side.spec_turned(), m3.row(side.spec_turned()).update(opp_pos, 0));
    lemma_seq_sum_update(m3.row(side.spec_turned()), opp_pos, 0);
    lemma_with_row_total(m3, side.spec_turned(), m3.row(side.spec_turned()).update(opp_pos, 0));
}

impl BoardModel {
    /// Seeds the mover has not yet banked; strictly shrinks when the mover
    /// earns an extra turn, which bounds every extra-turn chain.
    pub open spec fn deficit(self) -> int {
        self.total() - self.banked(self.side)
    }
}

/// An element occurs in a concatenation iff it occurs in one of the parts.
pub proof fn lemma_contains_concat<A>(a: Seq<A>, b: Seq<A>, x: A)
    ensures
        (a + b).contains(x) <==> a.contains(x) || b.contains(x),
{
    if (a + b).contains(x) {
        let i = choose|i: int| 0 <= i < (a + b).len() && (a + b)[i] == x;
        if i < a.len() {
            assert(a[i] == x);
        } else {
            assert(b[i - a.len()] == x);
        }
    }
    if a.contains(x) {
        let i = choose|i: int| 0 <= i < a.len() && a[i] == x;
        assert((a + b)[i] == x);
    }
    if b.contains(x) {
        let i = choose|i: int| 0 <= i < b.len() && b[i] == x;
        assert((a + b)[a.len() + i] == x);
    }
}

/// `to_set` turns concatenation into union.
pub proof fn lemma_to_set_concat<A>(a: Seq<A>, b: Seq<A>)
    ensures
        (a + b).to_set() == a.to_set().union(b.to_set()),
{
    assert forall|x: A| true implies ((a + b).to_set().contains(x) <==> a.to_set().union(
        b.to_set(),
    ).contains(x)) by {
        lemma_contains_concat(a, b, x);
    }
    assert((a + b).to_set() =~= a.to_set().union(b.to_set()));
}

/// All boards one completed turn away from `m`: the mover keeps sowing
/// through extra turns until the side changes or the game ends, and every
/// board where that happened is listed.  Finished boards allow no move.
pub open spec fn turn_list(m: BoardModel) -> Seq<BoardModel>
    decreases m.deficit(), 7int,
    when m.wf()
{
    if m.finished() {
        Seq::empty()
    } else {
        turn_list_from(m, 0)
    }
}

/// The part of `turn_list` contributed by pits `pos` and above.
pub open spec fn turn_list_from(m: BoardModel, pos: int) -> Seq<BoardModel>
    decreases m.deficit(), 6int - pos,
    when m.wf() && !m.finished() && 0 <= pos
{
    if pos >= PIT {
        Seq::empty()
    } else if m.row(m.side)[pos] > 0 {
        let n = spec_sow(m, pos);
        if n.side == m.side {
            proof {
                lemma_sow_props(m, pos);
                lemma_seq_sum_nonneg(n.seeds[0]);
                lemma_seq_sum_nonneg(n.seeds[1]);
            }
            turn_list(n) + turn_list_from(m, pos + 1)
        } else {
            seq![n] + turn_list_from(m, pos + 1)
        }
    } else {
        turn_list_from(m, pos + 1)
    }
}

/// The set of boards reachable from `m` in one completed turn.
pub open spec fn turn_outcomes(m: BoardModel) -> Set<BoardModel> {
    turn_list(m).to_set()
}

/// Every board reachable in one completed turn is well formed, conserves the
/// seed total, keeps the rule flag, hands the move to the opponent, and sits
/// strictly below `m` in the (pits in play, row weight) order.
pub proof fn lemma_turn_list_props(m: BoardModel)
    requires
        m.wf(),
    ensures
        forall|c: BoardModel| #[trigger] turn_list(m).contains(c) ==> c.wf() && c.total()
            == m.total() && c.stealing == m.stealing && c.side == m.side.spec_turned() && (
        c.pits_total() < m.pits_total() || (c.pits_total() == m.pits_total() && c.phi()
            < m.phi())),
    decreases m.deficit(), 7int,
{
    lemma_seq_sum_nonneg(m.seeds[0]);
    lemma_seq_sum_nonneg(m.seeds[1]);
    if !m.finished() {
        lemma_turn_list_from_props(m, 0);
        assert forall|c: BoardModel| #[trigger] turn_list(m).contains(c) implies c.wf()
            && c.total() == m.total() && c.stealing == m.stealing && c.side
            == m.side.spec_turned() && (c.pits_total() < m.pits_total() || (c.pits_total()
            == m.pits_total() && c.phi() < m.phi())) by {
            assert(turn_list_from(m, 0).contains(c));
        }
    }
}

proof fn lemma_turn_list_from_props(m: BoardModel, pos: int)
    requires
        m.wf(),
        !m.finished(),
        0 <= pos,
    ensures
        forall|c: BoardModel| #[trigger] turn_list_from(m, pos).contains(c) ==> c.wf() && c.total()
            == m.total() && c.stealing == m.stealing && c.side == m.side.spec_turned() && (
        c.pits_total() < m.pits_total() || (c.pits_total() == m.pits_total() && c.phi()
            < m.phi())),
    decreases m.deficit(), 6int - pos,
{
    lemma_seq_sum_nonneg(m.seeds[0]);
    lemma_seq_sum_nonneg(m.seeds[1]);
    if pos < PIT {
        lemma_turn_list_from_props(m, pos + 1);
        if m.row(m.side)[pos] > 0 {
            lemma_sow_props(m, pos);
            let n = spec_sow(m, pos);
            if n.side == m.side {
                lemma_seq_sum_nonneg(n.seeds[0]);
                lemma_seq_sum_nonneg(n.seeds[1]);
                lemma_turn_list_props(n);
            }
        }
    }
    assert forall|c: BoardModel| #[trigger] turn_list_from(m, pos).contains(c) implies c.wf()
        && c.total() == m.total() && c.stealing == m.stealing && c.side == m.side.spec_turned()
        && (c.pits_total() < m.pits_total() || (c.pits_total() == m.pits_total() && c.phi()
        < m.phi())) by {
        if pos < PIT {
            if m.row(m.side)[pos] > 0 {
                let n = spec_sow(m, pos);
                if n.side == m.side {
                    lemma_contains_concat(turn_list(n), turn_list_from(m, pos + 1), c);
                } else {
                    lemma_contains_concat(seq![n], turn_list_from(m, pos + 1), c);
                    if seq![n].contains(c) {
                        assert(c == n);
                    }
                }
            } else {
                assert(turn_list_from(m, pos + 1).contains(c));
            }
        }
    }
}

/// An unfinished board always has at least one completed turn available.
pub proof fn lemma_turn_list_nonempty(m: BoardModel)
    requires
        m.wf(),
        !m.finished(),
    ensures
        turn_list(m).len() > 0,
    decreases m.deficit(), 7int,
{
    lemma_seq_sum_nonneg(m.seeds[0]);
    lemma_seq_sum_nonneg(m.seeds[1]);
    let row = m.row(m.side);
    assert(!all_zero(row));
    let j = choose|j: int| 0 <= j < row.len() && row[j] != 0;
    lemma_turn_list_from_nonempty(m, 0, j);
}

proof fn lemma_turn_list_from_nonempty(m: BoardModel, pos: int, j: int)
    requires
        m.wf(),
        !m.finished(),
        0 <= pos <= j < PIT,
        m.row(m.side)[j] > 0,
    ensures
        turn_list_from(m, pos).len() > 0,
    decreases m.deficit(), 6int - pos,
{
    lemma_seq_sum_nonneg(m.seeds[0]);
    lemma_seq_sum_nonneg(m.seeds[1]);
    if m.row(m.side)[pos] > 0 {
        let n = spec_sow(m, pos);
        lemma_sow_props(m, pos);
        if n.side == m.side {
            lemma_seq_sum_nonneg(n.seeds[0]);
            lemma_seq_sum_nonneg(n.seeds[1]);
            lemma_turn_list_nonempty(n);
        }
    } else {
        lemma_turn_list_from_nonempty(m, pos + 1, j);
    }
}

/// `ps` is a sequence of legal sows from `m` that all keep the mover's turn,
/// ending in board `b`.
pub open spec fn same_side_chain(m: BoardModel, ps: Seq<usize>, b: BoardModel) -> bool
    decreases ps.len(),
{
    if ps.len() == 0 {
        b == m
    } else {
        legal_pos(m, ps[0] as int) && {
            let n = spec_sow(m, ps[0] as int);
            n.side == m.side && same_side_chain(n, ps.drop_first(), b)
        }
    }
}

/// `ps` is a complete turn from `m`: every sow is legal, all but the last
/// keep the mover's turn, and the last one passes it, reaching board `b`.
pub open spec fn turn_chain(m: BoardModel, ps: Seq<usize>, b: BoardModel) -> bool
    decreases ps.len(),
{
    ps.len() > 0 && legal_pos(m, ps[0] as int) && {
        let n = spec_sow(m, ps[0] as int);
        if ps.len() == 1 {
            n.side != m.side && b == n
        } else {
            n.side == m.side && turn_chain(n, ps.drop_first(), b)
        }
    }
}

/// `ps` is a sequence of legal sows from `m` in which every sow but the last
/// keeps the mover's turn; the last one may or may not pass it.  This is the
/// shape of move list every strategy hands the game driver.
pub open spec fn sowable_chain(m: BoardModel, ps: Seq<usize>) -> bool
    decreases ps.len(),
{
    if ps.len() == 0 {
        true
    } else {
        legal_pos(m, ps[0] as int) && {
            let n = spec_sow(m, ps[0] as int);
            ps.len() == 1 || (n.side == m.side && sowable_chain(n, ps.drop_first()))
        }
    }
}

/// The board after playing a chain of sows.
pub open spec fn apply_chain(m: BoardModel, ps: Seq<usize>) -> BoardModel
    decreases ps.len(),
{
    if ps.len() == 0 {
        m
    } else {
        apply_chain(spec_sow(m, ps[0] as int), ps.drop_first())
    }
}

/// `ps` is any sequence of legal sows from `m`, with no constraint on whose
/// turn each one is: the general notion of a reachable line of play.
pub open spec fn legal_sow_seq(m: BoardModel, ps: Seq<usize>) -> bool
    decreases ps.len(),
{
    if ps.len() == 0 {
        true
    } else {
        legal_pos(m, ps[0] as int) && legal_sow_seq(spec_sow(m, ps[0] as int), ps.drop_first())
    }
}

/// Conservation law: every board reachable by legal sows from a well-formed
/// board stays well formed and holds exactly the seeds (in pits and banked)
/// that the starting board held.  In particular, a whole game from a fresh
/// board conserves the initial seed count.  A non-empty line of play also
/// strictly lowers the (pits in play, row weight) pair, so play is finite.
pub proof fn lemma_conservation(m: BoardModel, ps: Seq<usize>)
    requires
        m.wf(),
        legal_sow_seq(m, ps),
    ensures
        apply_chain(m, ps).wf(),
        apply_chain(m, ps).total() == m.total(),
        ps.len() > 0 ==> (apply_chain(m, ps).pits_total() < m.pits_total() || (apply_chain(
            m,
            ps,
        ).pits_total() == m.pits_total() && apply_chain(m, ps).phi() < m.phi())),
    decreases ps.len(),
{
    if ps.len() > 0 {
        lemma_sow_props(m, ps[0] as int);
        lemma_conservation(spec_sow(m, ps[0] as int), ps.drop_first());
    }
}

/// Every playable chain is in particular a legal line of play.
pub proof fn lemma_sowable_chain_legal(m: BoardModel, ps: Seq<usize>)
    requires
        sowable_chain(m, ps),
    ensures
        legal_sow_seq(m, ps),
    decreases ps.len(),
{
    if ps.len() > 0 {
        if ps.len() == 1 {
            assert(legal_sow_seq(spec_sow(m, ps[0] as int), ps.drop_first()));
        } else {
            lemma_sowable_chain_legal(spec_sow(m, ps[0] as int), ps.drop_first());
        }
    }
}

/// Legal lines of play compose, and the board they reach composes with them.
pub proof fn lemma_legal_seq_concat(m: BoardModel, ps1: Seq<usize>, ps2: Seq<usize>)
    requires
        legal_sow_seq(m, ps1),
        legal_sow_seq(apply_chain(m, ps1), ps2),
    ensures
        legal_sow_seq(m, ps1 + ps2),
        apply_chain(m, ps1 + ps2) == apply_chain(apply_chain(m, ps1), ps2),
    decreases ps1.len(),
{
    if ps1.len() == 0 {
        assert(ps1 + ps2 =~= ps2);
    } else {
        let n = spec_sow(m, ps1[0] as int);
        lemma_legal_seq_concat(n, ps1.drop_first(), ps2);
        assert((ps1 + ps2)[0] == ps1[0]);
        assert((ps1 + ps2).drop_first() =~= ps1.drop_first() + ps2);
    }
}

/// Appending one legal sow to a line of play.
pub proof fn lemma_apply_chain_push(m: BoardModel, ps: Seq<usize>, p: usize)
    ensures
        apply_chain(m, ps.push(p)) == spec_sow(apply_chain(m, ps), p as int),
    decreases ps.len(),
{
    if ps.len() == 0 {
        assert(ps.push(p)[0] == p);
        assert(ps.push(p).drop_first() =~= Seq::<usize>::empty());
        assert(apply_chain(spec_sow(m, p as int), Seq::<usize>::empty()) == spec_sow(m, p as int));
        assert(apply_chain(m, ps) == m);
    } else {
        lemma_apply_chain_push(spec_sow(m, ps[0] as int), ps.drop_first(), p);
        assert(ps.push(p)[0] == ps[0]);
        assert(ps.push(p).drop_first() =~= ps.drop_first().push(p));
    }
}

/// Prepending an extra-turn sow to a complete turn.
proof fn lemma_turn_chain_cons(m: BoardModel, p: usize, ps: Seq<usize>, b: BoardModel)
    requires
        legal_pos(m, p as int),
        spec_sow(m, p as int).side == m.side,
        turn_chain(spec_sow(m, p as int), ps, b),
    ensures
        turn_chain(m, seq![p] + ps, b),
{
    let whole = seq![p] + ps;
    assert(whole[0] == p);
    assert(whole.drop_first() =~= ps);
    assert(whole.len() == 1 + ps.len());
}

/// Every board one completed turn away is reached by some complete turn of
/// sows; together with `lemma_turn_chain_sowable` this makes every listed
/// outcome reachable by legal play.
pub proof fn lemma_turn_list_chains(m: BoardModel)
    requires
        m.wf(),
    ensures
        forall|c: BoardModel|
            #[trigger] turn_list(m).contains(c) ==> exists|ps: Seq<usize>| turn_chain(m, ps, c),
    decreases m.deficit(), 7int,
{
    lemma_seq_sum_nonneg(m.seeds[0]);
    lemma_seq_sum_nonneg(m.seeds[1]);
    if !m.finished() {
        lemma_turn_list_from_chains(m, 0);
        assert forall|c: BoardModel| #[trigger] turn_list(m).contains(c) implies exists|ps: Seq<
            usize,
        >| turn_chain(m, ps, c) by {
            assert(turn_list_from(m, 0).contains(c));
        }
    }
}

proof fn lemma_turn_list_from_chains(m: BoardModel, pos: int)
    requires
        m.wf(),
        !m.finished(),
        0 <= pos,
    ensures
        forall|c: BoardModel|
            #[trigger] turn_list_from(m, pos).contains(c) ==> exists|ps: Seq<usize>|
                turn_chain(m, ps, c),
    decreases m.deficit(), 6int - pos,
{
    lemma_seq_sum_nonneg(m.seeds[0]);
    lemma_seq_sum_nonneg(m.seeds[1]);
    if pos < PIT {
        lemma_turn_list_from_chains(m, pos + 1);
        if m.row(m.side)[pos] > 0 {
            lemma_sow_props(m, pos);
            let n = spec_sow(m, pos);
            if n.side == m.side {
                lemma_seq_sum_nonneg(n.seeds[0]);
                lemma_seq_sum_nonneg(n.seeds[1]);
                lemma_turn_list_chains(n);
            }
        }
    }
    assert forall|c: BoardModel| #[trigger] turn_list_from(m, pos).contains(c) implies exists|
        ps: Seq<usize>,
    | turn_chain(m, ps, c) by {
        if pos < PIT {
            if m.row(m.side)[pos] > 0 {
                let n = spec_sow(m, pos);
                if n.side == m.side {
                    lemma_contains_concat(turn_list(n), turn_list_from(m, pos + 1), c);
                    if turn_list(n).contains(c) {
                        let inner = choose|ps: Seq<usize>| turn_chain(n, ps, c);
                        lemma_turn_chain_cons(m, pos as usize, inner, c);
                        assert(turn_chain(m, seq![pos as usize] + inner, c));
                    }
                } else {
                    lemma_contains_concat(seq![n], turn_list_from(m, pos + 1), c);
                    if seq![n].contains(c) {
                        assert(c == n);
                        assert(seq![pos as usize][0] == pos as usize);
                        assert(turn_chain(m, seq![pos as usize], c));
                    }
                }
            } else {
                assert(turn_list_from(m, pos + 1).contains(c));
            }
        }
    }
}

/// A complete turn is in particular a playable chain, and playing it reaches
/// the turn's outcome.
pub proof fn lemma_turn_chain_sowable(m: BoardModel, ps: Seq<usize>, b: BoardModel)
    requires
        turn_chain(m, ps, b),
    ensures
        sowable_chain(m, ps),
        apply_chain(m, ps) == b,
    decreases ps.len(),
{
    let n = spec_sow(m, ps[0] as int);
    if ps.len() > 1 {
        lemma_turn_chain_sowable(n, ps.drop_first(), b);
    } else {
        assert(ps.drop_first().len() == 0);
        assert(apply_chain(n, ps.drop_first()) == n);
    }
}

/// Playing a legal chain on a well-formed board keeps it well formed,
/// conserves the seed total, and, when the chain is not empty, strictly
/// lowers the (pits in play, row weight) pair, so full games are finite.
pub proof fn lemma_apply_chain_props(m: BoardModel, ps: Seq<usize>)
    requires
        m.wf(),
        sowable_chain(m, ps),
    ensures
        apply_chain(m, ps).wf(),
        apply_chain(m, ps).total() == m.total(),
        apply_chain(m, ps).stealing == m.stealing,
        ps.len() > 0 ==> (apply_chain(m, ps).pits_total() < m.pits_total() || (apply_chain(
            m,
            ps,
        ).pits_total() == m.pits_total() && apply_chain(m, ps).phi() < m.phi())),
    decreases ps.len(),
{
    if ps.len() > 0 {
        lemma_sow_props(m, ps[0] as int);
        let n = spec_sow(m, ps[0] as int);
        if ps.len() == 1 {
            assert(apply_chain(n, ps.drop_first()) == n);
        } else {
            lemma_apply_chain_props(n, ps.drop_first());
        }
    }
}

/// Extending a same-side chain by one extra-turn sow.
pub proof fn lemma_same_side_chain_push(m: BoardModel, ps: Seq<usize>, b: BoardModel, p: usize)
    requires
        same_side_chain(m, ps, b),
        legal_pos(b, p as int),
        spec_sow(b, p as int).side == b.side,
    ensures
        same_side_chain(m, ps.push(p), spec_sow(b, p as int)),
    decreases ps.len(),
{
    if ps.len() == 0 {
        assert(ps.push(p)[0] == p);
        assert(ps.push(p).drop_first() =~= Seq::<usize>::empty());
        assert(same_side_chain(spec_sow(b, p as int), Seq::<usize>::empty(), spec_sow(
            b,
            p as int,
        )));
    } else {
        let n = spec_sow(m, ps[0] as int);
        lemma_same_side_chain_push(n, ps.drop_first(), b, p);
        assert(ps.push(p)[0] == ps[0]);
        assert(ps.push(p).drop_first() =~= ps.drop_first().push(p));
    }
}

/// Closing a same-side chain with a sow that passes the turn.
pub proof fn lemma_turn_chain_push(m: BoardModel, ps: Seq<usize>, b: BoardModel, p: usize)
    requires
        same_side_chain(m, ps, b),
        legal_pos(b, p as int),
        spec_sow(b, p as int).side != b.side,
    ensures
        turn_chain(m, ps.push(p), spec_sow(b, p as int)),
    decreases ps.len(),
{
    if ps.len() == 0 {
        assert(ps.push(p)[0] == p);
    } else {
        let n = spec_sow(m, ps[0] as int);
        lemma_turn_chain_push(n, ps.drop_first(), b, p);
        assert(ps.push(p)[0] == ps[0]);
        assert(ps.push(p).drop_first() =~= ps.drop_first().push(p));
    }
}

/// A same-side chain closed by any further legal sow is playable.
pub proof fn lemma_sowable_chain_push(m: BoardModel, ps: Seq<usize>, b: BoardModel, p: usize)
    requires
        same_side_chain(m, ps, b),
        legal_pos(b, p as int),
    ensures
        sowable_chain(m, ps.push(p)),
    decreases ps.len(),
{
    if ps.len() == 0 {
        assert(ps.push(p)[0] == p);
    } else {
        let n = spec_sow(m, ps[0] as int);
        lemma_sowable_chain_push(n, ps.drop_first(), b, p);
        assert(ps.push(p)[0] == ps[0]);
        assert(ps.push(p).drop_first() =~= ps.drop_first().push(p));
    }
}

/// Integer row values determine the byte rows.
pub proof fn lemma_to_int_seq_injective(a: Seq<u8>, b: Seq<u8>)
    ensures
        (to_int_seq(a) == to_int_seq(b)) <==> (a == b),
{
    if to_int_seq(a) == to_int_seq(b) {
        assert(to_int_seq(a).len() == a.len());
        assert(to_int_seq(b).len() == b.len());
        assert(a.len() == b.len());
        assert forall|i: int| 0 <= i < a.len() implies a[i] == b[i] by {
            assert(to_int_seq(a)[i] == a[i] as int);
            assert(to_int_seq(b)[i] == b[i] as int);
        }
        assert(a =~= b);
    }
}

/// Do two rows hold the same counts?
fn rows_eq(a: &Vec<u8>, b: &Vec<u8>) -> (r: bool)
    ensures
        r == (a@ == b@),
{
    if a.len() != b.len() {
        return false;
    }
    let mut i: usize = 0;
    while i < a.len()
        invariant
            0 <= i <= a@.len(),
            a@.len() == b@.len(),
            forall|j: int| 0 <= j < i ==> a@[j] == b@[j],
        decreases a@.len() - i,
    {
        if a[i] != b[i] {
            return false;
        }
        i += 1;
    }
    proof {
        assert(a@ =~= b@);
    }
    true
}

/// The set of boards named by a list of (board, move chain) entries.
pub open spec fn entries_set(s: Seq<(Board, Vec<usize>)>) -> Set<BoardModel> {
    Set::new(|b: BoardModel| exists|i: int| 0 <= i < s.len() && (#[trigger] s[i]).0@ == b)
}

/// Turn outcomes still owed by the worklist entries from `start` on.
pub open spec fn pending_outcomes(s: Seq<(Board, Vec<usize>)>, start: int) -> Set<BoardModel>
    decreases s.len() - start,
    when 0 <= start
{
    if start >= s.len() {
        Set::empty()
    } else {
        turn_outcomes(s[start].0@).union(pending_outcomes(s, start + 1))
    }
}

/// The tail of `turn_list_from`, as a set.
pub open spec fn outcomes_from(m: BoardModel, pos: int) -> Set<BoardModel> {
    turn_list_from(m, pos).to_set()
}

pub proof fn lemma_pending_push(s: Seq<(Board, Vec<usize>)>, start: int, e: (Board, Vec<usize>))
    requires
        0 <= start <= s.len(),
    ensures
        pending_outcomes(s.push(e), start) == pending_outcomes(s, start).union(turn_outcomes(e.0@)),
    decreases s.len() - start,
{
    if start == s.len() {
        assert(s.push(e)[start] == e);
        assert(pending_outcomes(s.push(e), start + 1) =~= Set::<BoardModel>::empty());
        assert(pending_outcomes(s, start) =~= Set::<BoardModel>::empty());
        assert(pending_outcomes(s.push(e), start) =~= pending_outcomes(s, start).union(
            turn_outcomes(e.0@),
        ));
    } else {
        lemma_pending_push(s, start + 1, e);
        assert(s.push(e)[start] == s[start]);
        assert(pending_outcomes(s.push(e), start) =~= pending_outcomes(s, start).union(
            turn_outcomes(e.0@),
        ));
    }
}

pub proof fn lemma_entries_set_push(s: Seq<(Board, Vec<usize>)>, e: (Board, Vec<usize>))
    ensures
        entries_set(s.push(e)) == entries_set(s).insert(e.0@),
{
    assert forall|x: BoardModel| entries_set(s.push(e)).contains(x) implies entries_set(s).insert(
        e.0@,
    ).contains(x) by {
        let i = choose|i: int| 0 <= i < s.push(e).len() && (#[trigger] s.push(e)[i]).0@ == x;
        if i < s.len() {
            assert(s[i].0@ == x);
        } else {
            assert(x == e.0@);
        }
    }
    assert forall|x: BoardModel| entries_set(s).insert(e.0@).contains(x) implies entries_set(
        s.push(e),
    ).contains(x) by {
        if x == e.0@ {
            assert(s.push(e)[s.len() as int].0@ == x);
        } else {
            let i = choose|i: int| 0 <= i < s.len() && (#[trigger] s[i]).0@ == x;
            assert(s.push(e)[i].0@ == x);
        }
    }
    assert(entries_set(s.push(e)) =~= entries_set(s).insert(e.0@));
}

pub proof fn lemma_entries_set_contains(s: Seq<(Board, Vec<usize>)>, i: int)
    requires
        0 <= i < s.len(),
    ensures
        entries_set(s).contains(s[i].0@),
{
    assert(0 <= i < s.len() && (#[trigger] s[i]).0@ == s[i].0@);
}

/// Copy a chain of sow positions.
pub(crate) fn clone_positions(v: &Vec<usize>) -> (r: Vec<usize>)
    ensures
        r@ == v@,
{
    let r = v.clone();
    proof {
        assert(r@ =~= v@);
    }
    r
}

impl Board {
    /// Value equality of two boards: same mover, same rule flag, same pits
    /// and the same banked scores.
    pub fn eq_board(&self, other: &Board) -> (r: bool)
        ensures
            r == (self@ == other@),
    {
        if self.side != other.side {
            return false;
        }
        if self.stealing != other.stealing {
            return false;
        }
        if self.score0 != other.score0 || self.score1 != other.score1 {
            return false;
        }
        if !rows_eq(&self.seeds0, &other.seeds0) {
            proof {
                lemma_to_int_seq_injective(self.seeds0@, other.seeds0@);
            }
            return false;
        }
        if !rows_eq(&self.seeds1, &other.seeds1) {
            proof {
                lemma_to_int_seq_injective(self.seeds1@, other.seeds1@);
            }
            return false;
        }
        proof {
            assert(self@ =~~= other@);
        }
        true
    }
}

/// Append an outcome to `out` unless its board is already listed; the first
/// chain found for each board is the one kept.
fn push_unique(out: &mut Vec<(Board, Vec<usize>)>, b: Board, ps: Vec<usize>)
    ensures
        entries_set(final(out)@) == entries_set(old(out)@).insert(b@),
        final(out)@ == old(out)@ || final(out)@ == old(out)@.push((b, ps)),
        final(out)@ == old(out)@.push((b, ps)) ==> !entries_set(old(out)@).contains(b@),
{
    let mut i: usize = 0;
    while i < out.len()
        invariant
            0 <= i <= out@.len(),
            forall|j: int| 0 <= j < i ==> (#[trigger] out@[j]).0@ != b@,
        decreases out@.len() - i,
    {
        if out[i].0.eq_board(&b) {
            proof {
                lemma_entries_set_contains(out@, i as int);
                assert(entries_set(out@).insert(b@) =~= entries_set(out@));
            }
            return ;
        }
        i += 1;
    }
    proof {
        if entries_set(out@).contains(b@) {
            let k = choose|k: int| 0 <= k < out@.len() && (#[trigger] out@[k]).0@ == b@;
            assert(out@[k].0@ != b@);
        }
        lemma_entries_set_push(out@, (b, ps));
    }
    out.push((b, ps));
}

/// The set of boards a sequence of boards holds.
pub open spec fn boards_set(s: Seq<Board>) -> Set<BoardModel> {
    Set::new(|b: BoardModel| exists|i: int| 0 <= i < s.len() && (#[trigger] s[i])@ == b)
}

impl Board {
    /// All boards one completed turn away, each paired with the pit sequence
    /// that reaches it.  Chained extra turns are expanded with an explicit
    /// worklist, not native recursion, so long extra-turn chains cannot
    /// overflow the stack.  A board reachable along several chains is listed
    /// once, under the first chain found; a finished board yields nothing.
    #[verifier::loop_isolation(false)]
    #[verifier::rlimit(60)]
    pub fn list_next_with_pos(&self) -> (r: Vec<(Board, Vec<usize>)>)
        requires
            self.wf(),
        ensures
            forall|i: int| 0 <= i < r@.len() ==> (#[trigger] r@[i]).0.wf(),
            forall|i: int|
                0 <= i < r@.len() ==> turn_chain(self@, (#[trigger] r@[i]).1@, r@[i].0@),
            entries_set(r@) == turn_outcomes(self@),
            forall|i: int, j: int|
                0 <= i < j < r@.len() ==> (#[trigger] r@[i]).0@ != (#[trigger] r@[j]).0@,
            self@.finished() ==> r@.len() == 0,
    {
        let ghost root = self@;
        let mut out: Vec<(Board, Vec<usize>)> = Vec::new();
        if self.is_finished() {
            proof {
                assert(entries_set(out@) =~= turn_outcomes(root));
            }
            return out;
        }
        let root_side = self.side();
        let mut frontier: Vec<(Board, Vec<usize>)> = Vec::new();
        let empty_ps: Vec<usize> = Vec::new();
        frontier.push((self.clone(), empty_ps));
        let ghost mut round: int = 0;
        proof {
            lemma_seq_sum_nonneg(root.seeds[0]);
            lemma_seq_sum_nonneg(root.seeds[1]);
            assert(pending_outcomes(frontier@, 1) =~= Set::<BoardModel>::empty());
            assert(turn_outcomes(root) =~= entries_set(out@).union(
                pending_outcomes(frontier@, 0),
            ));
        }
        while frontier.len() > 0
            invariant
                0 <= round <= root.total() + 1,
                forall|i: int|
                    0 <= i < frontier@.len() ==> {
                        let e = #[trigger] frontier@[i];
                        &&& e.0.wf()
                        &&& e.0@.side == root.side
                        &&& !e.0@.finished()
                        &&& e.0@.total() == root.total()
                        &&& e.0@.banked(root.side) >= round
                        &&& same_side_chain(root, e.1@, e.0@)
                    },
                forall|i: int| 0 <= i < out@.len() ==> (#[trigger] out@[i]).0.wf(),
                forall|i: int|
                    0 <= i < out@.len() ==> turn_chain(root, (#[trigger] out@[i]).1@, out@[i].0@),
                forall|i: int, j: int|
                    0 <= i < j < out@.len() ==> (#[trigger] out@[i]).0@ != (#[trigger] out@[j]).0@,
                turn_outcomes(root) == entries_set(out@).union(pending_outcomes(frontier@, 0)),
            decreases root.total() + 1 - round,
        {
            proof {
                let e0 = frontier@[0];
                lemma_seq_sum_nonneg(e0.0@.seeds[0]);
                lemma_seq_sum_nonneg(e0.0@.seeds[1]);
                assert(round <= root.total());
            }
            let mut next: Vec<(Board, Vec<usize>)> = Vec::new();
            let mut fi: usize = 0;
            while fi < frontier.len()
                invariant
                    0 <= fi <= frontier@.len(),
                    forall|i: int|
                        0 <= i < next@.len() ==> {
                            let e = #[trigger] next@[i];
                            &&& e.0.wf()
                            &&& e.0@.side == root.side
                            &&& !e.0@.finished()
                            &&& e.0@.total() == root.total()
                            &&& e.0@.banked(root.side) >= round + 1
                            &&& same_side_chain(root, e.1@, e.0@)
                        },
                    forall|i: int| 0 <= i < out@.len() ==> (#[trigger] out@[i]).0.wf(),
                    forall|i: int|
                        0 <= i < out@.len() ==> turn_chain(
                            root,
                            (#[trigger] out@[i]).1@,
                            out@[i].0@,
                        ),
                    forall|i: int, j: int|
                        0 <= i < j < out@.len() ==> (#[trigger] out@[i]).0@ != (
                        #[trigger] out@[j]).0@,
                    turn_outcomes(root) == entries_set(out@).union(
                        pending_outcomes(frontier@, fi as int),
                    ).union(pending_outcomes(next@, 0)),
                decreases frontier@.len() - fi,
            {
                let b = frontier[fi].0.clone();
                let bps = clone_positions(&frontier[fi].1);
                let ghost bm = b@;
                proof {
                    assert(outcomes_from(bm, 0) =~= turn_outcomes(bm));
                    assert(entries_set(out@).union(pending_outcomes(frontier@, fi as int)).union(
                        pending_outcomes(next@, 0),
                    ) =~= entries_set(out@).union(outcomes_from(bm, 0)).union(
                        pending_outcomes(frontier@, fi as int + 1),
                    ).union(pending_outcomes(next@, 0)));
                }
                let mut pos: usize = 0;
                while pos < PIT
                    invariant
                        0 <= pos <= PIT,
                        b.wf(),
                        b@ == bm,
                        bps@ == frontier@[fi as int].1@,
                        forall|i: int|
                            0 <= i < next@.len() ==> {
                                let e = #[trigger] next@[i];
                                &&& e.0.wf()
                                &&& e.0@.side == root.side
                                &&& !e.0@.finished()
                                &&& e.0@.total() == root.total()
                                &&& e.0@.banked(root.side) >= round + 1
                                &&& same_side_chain(root, e.1@, e.0@)
                            },
                        forall|i: int| 0 <= i < out@.len() ==> (#[trigger] out@[i]).0.wf(),
                        forall|i: int|
                            0 <= i < out@.len() ==> turn_chain(
                                root,
                                (#[trigger] out@[i]).1@,
                                out@[i].0@,
                            ),
                        forall|i: int, j: int|
                            0 <= i < j < out@.len() ==> (#[trigger] out@[i]).0@ != (
                            #[trigger] out@[j]).0@,
                        turn_outcomes(root) == entries_set(out@).union(
                            outcomes_from(bm, pos as int),
                        ).union(pending_outcomes(frontier@, fi as int + 1)).union(
                            pending_outcomes(next@, 0),
                        ),
                    decreases PIT - pos,
                {
                    let seeds = b.get_pit(root_side, pos);
                    if seeds > 0 {
                        let mut nb = b.clone();
                        nb.sow(pos);
                        let mut nps = clone_positions(&bps);
                        nps.push(pos);
                        proof {
                            lemma_sow_props(bm, pos as int);
                        }
                        let ghost n = spec_sow(bm, pos as int);
                        if nb.side() == root_side {
                            proof {
                                lemma_same_side_chain_push(root, bps@, bm, pos);
                                lemma_pending_push(next@, 0, (nb, nps));
                                lemma_to_set_concat(turn_list(n), turn_list_from(
                                    bm,
                                    pos as int + 1,
                                ));
                                assert(entries_set(out@).union(
                                    outcomes_from(bm, pos as int),
                                ).union(pending_outcomes(frontier@, fi as int + 1)).union(
                                    pending_outcomes(next@, 0),
                                ) =~= entries_set(out@).union(
                                    outcomes_from(bm, pos as int + 1),
                                ).union(pending_outcomes(frontier@, fi as int + 1)).union(
                                    pending_outcomes(next@.push((nb, nps)), 0),
                                ));
                            }
                            next.push((nb, nps));
                        } else {
                            proof {
                                lemma_turn_chain_push(root, bps@, bm, pos);
                                lemma_to_set_concat(seq![n], turn_list_from(bm, pos as int + 1));
                                assert(seq![n][0] == n);
                                assert(seq![n].to_set() =~= Set::<BoardModel>::empty().insert(n));
                            }
                            let ghost out0 = out@;
                            push_unique(&mut out, nb, nps);
                            proof {
                                assert(entries_set(out0).union(
                                    outcomes_from(bm, pos as int),
                                ).union(pending_outcomes(frontier@, fi as int + 1)).union(
                                    pending_outcomes(next@, 0),
                                ) =~= entries_set(out@).union(
                                    outcomes_from(bm, pos as int + 1),
                                ).union(pending_outcomes(frontier@, fi as int + 1)).union(
                                    pending_outcomes(next@, 0),
                                ));
                            }
                        }
                    } else {
                        proof {
                            assert(outcomes_from(bm, pos as int) =~= outcomes_from(
                                bm,
                                pos as int + 1,
                            ));
                        }
                    }
                    pos += 1;
                }
                proof {
                    assert(outcomes_from(bm, PIT as int) =~= Set::<BoardModel>::empty());
                    assert(entries_set(out@).union(outcomes_from(bm, PIT as int)).union(
                        pending_outcomes(frontier@, fi as int + 1),
                    ).union(pending_outcomes(next@, 0)) =~= entries_set(out@).union(
                        pending_outcomes(frontier@, fi as int + 1),
                    ).union(pending_outcomes(next@, 0)));
                }
                fi += 1;
            }
            proof {
                assert(pending_outcomes(frontier@, frontier@.len() as int) =~= Set::<
                    BoardModel,
                >::empty());
            }
            frontier = next;
            proof {
                round = round + 1;
                assert(entries_set(out@).union(Set::<BoardModel>::empty()).union(
                    pending_outcomes(frontier@, 0),
                ) =~= entries_set(out@).union(pending_outcomes(frontier@, 0)));
            }
        }
        proof {
            assert(pending_outcomes(frontier@, 0) =~= Set::<BoardModel>::empty());
            assert(entries_set(out@).union(pending_outcomes(frontier@, 0)) =~= entries_set(out@));
        }
        out
    }

    /// All boards one completed turn away, without the move chains.
    #[verifier::loop_isolation(false)]
    pub fn list_next(&self) -> (r: Vec<Board>)
        requires
            self.wf(),
        ensures
            forall|i: int| 0 <= i < r@.len() ==> (#[trigger] r@[i]).wf(),
            boards_set(r@) == turn_outcomes(self@),
            forall|i: int, j: int|
                0 <= i < j < r@.len() ==> (#[trigger] r@[i])@ != (#[trigger] r@[j])@,
            self@.finished() ==> r@.len() == 0,
    {
        let entries = self.list_next_with_pos();
        let mut r: Vec<Board> = Vec::new();
        let mut i: usize = 0;
        while i < entries.len()
            invariant
                0 <= i <= entries@.len(),
                r@.len() == i,
                forall|j: int| 0 <= j < i ==> (#[trigger] r@[j])@ == entries@[j].0@,
                forall|j: int| 0 <= j < i ==> (#[trigger] r@[j]).wf(),
            decreases entries@.len() - i,
        {
            proof {
                assert(entries@[i as int].0.wf());
            }
            r.push(entries[i].0.clone());
            i += 1;
        }
        proof {
            assert forall|x: BoardModel| boards_set(r@).contains(x) implies entries_set(
                entries@,
            ).contains(x) by {
                let k = choose|k: int| 0 <= k < r@.len() && (#[trigger] r@[k])@ == x;
                assert(entries@[k].0@ == x);
            }
            assert forall|x: BoardModel| entries_set(entries@).contains(x) implies boards_set(
                r@,
            ).contains(x) by {
                let k = choose|k: int| 0 <= k < entries@.len() && (#[trigger] entries@[k]).0@ == x;
                assert(r@[k]@ == x);
            }
            assert(boards_set(r@) =~= entries_set(entries@));
        }
        r
    }
}

/// Game state with value semantics: searches copy a board for every
/// hypothetical future instead of sharing mutable state.
#[derive(Debug)]
pub struct Board {
    side: Side,
    stealing: bool,
    seeds0: Vec<u8>,
    seeds1: Vec<u8>,
    score0: u8,
    score1: u8,
}

impl View for Board {
    type V = BoardModel;

    closed spec fn view(&self) -> BoardModel {
        BoardModel {
            side: self.side,
            stealing: self.stealing,
            seeds: seq![to_int_seq(self.seeds0@), to_int_seq(self.seeds1@)],
            score: seq![self.score0 as int, self.score1 as int],
        }
    }
}

impl Clone for Board {
    fn clone(&self) -> (r: Board)
        ensures
            r@ == self@,
    {
        let r = Board {
            side: self.side,
            stealing: self.stealing,
            seeds0: clone_row(&self.seeds0),
            seeds1: clone_row(&self.seeds1),
            score0: self.score0,
            score1: self.score1,
        };
        proof {
            assert(r@.seeds =~~= self@.seeds);
            assert(r@.score =~= self@.score);
        }
        r
    }
}

/// Copy a row of pit counts.
fn clone_row(v: &Vec<u8>) -> (r: Vec<u8>)
    ensures
        r@ == v@,
{
    let r = v.clone();
    proof {
        assert(r@ =~= v@);
    }
    r
}

/// All entries of a constant sequence sum to length times the constant.
pub proof fn lemma_seq_sum_constant(s: Seq<int>, v: int)
    requires
        forall|i: int| 0 <= i < s.len() ==> s[i] == v,
    ensures
        seq_sum(s) == s.len() * v,
    decreases s.len(),
{
    if s.len() == 0 {
    } else {
        lemma_seq_sum_constant(s.drop_last(), v);
        assert(seq_sum(s) == (s.len() - 1) * v + v);
        assert((s.len() - 1) * v + v == s.len() * v) by (nonlinear_arith);
    }
}

/// A sum splits at any index.
pub proof fn lemma_seq_sum_split(s: Seq<int>, i: int)
    requires
        0 <= i <= s.len(),
    ensures
        seq_sum(s) == seq_sum(s.subrange(0, i)) + seq_sum(s.subrange(i, s.len() as int)),
    decreases s.len() - i,
{
    if i == s.len() {
        assert(s.subrange(0, i) =~= s);
        assert(seq_sum(s.subrange(i, s.len() as int)) == 0);
    } else {
        lemma_seq_sum_split(s, i + 1);
        let left = s.subrange(0, i + 1);
        assert(left.drop_last() =~= s.subrange(0, i));
        assert(left.last() == s[i]);
        assert(seq_sum(s.subrange(0, i + 1)) == seq_sum(s.subrange(0, i)) + s[i]);
        let right = s.subrange(i, s.len() as int);
        let right1 = s.subrange(i + 1, s.len() as int);
        lemma_seq_sum_first(right);
        assert(right.drop_first() =~= right1);
        assert(right[0] == s[i]);
    }
}

/// A sum can also be peeled from the front.
pub proof fn lemma_seq_sum_first(s: Seq<int>)
    requires
        s.len() > 0,
    ensures
        seq_sum(s) == s[0] + seq_sum(s.drop_first()),
    decreases s.len(),
{
    if s.len() == 1 {
        assert(s.drop_first() =~= Seq::<int>::empty());
        assert(s.drop_last() =~= Seq::<int>::empty());
        assert(s.last() == s[0]);
    } else {
        lemma_seq_sum_first(s.drop_last());
        assert(s.drop_last()[0] == s[0]);
        assert(s.drop_last().drop_first() =~= s.drop_first().drop_last());
        assert(s.drop_first().last() == s.last());
        assert(seq_sum(s) == seq_sum(s.drop_last()) + s.last());
        assert(seq_sum(s.drop_last()) == s[0] + seq_sum(s.drop_first().drop_last()));
        assert(s.drop_first().len() > 0);
        assert(seq_sum(s.drop_first()) == seq_sum(s.drop_first().drop_last())
            + s.drop_first().last());
    }
}

/// A sum of non-negative entries is non-negative.
pub proof fn lemma_seq_sum_nonneg(s: Seq<int>)
    requires
        nonneg(s),
    ensures
        seq_sum(s) >= 0,
    decreases s.len(),
{
    if s.len() > 0 {
        assert(nonneg(s.drop_last()));
        lemma_seq_sum_nonneg(s.drop_last());
    }
}

/// Every entry of a non-negative row is bounded by the row's sum.
pub proof fn lemma_seq_sum_elem_bound(s: Seq<int>, i: int)
    requires
        nonneg(s),
        0 <= i < s.len(),
    ensures
        s[i] <= seq_sum(s),
{
    lemma_seq_sum_split(s, i);
    lemma_seq_sum_first(s.subrange(i, s.len() as int));
    assert(nonneg(s.subrange(0, i)));
    assert(nonneg(s.subrange(i, s.len() as int).drop_first()));
    lemma_seq_sum_nonneg(s.subrange(0, i));
    lemma_seq_sum_nonneg(s.subrange(i, s.len() as int).drop_first());
    assert(s.subrange(i, s.len() as int)[0] == s[i]);
}

/// Changing one entry changes the sum by the difference.
pub proof fn lemma_seq_sum_update(s: Seq<int>, i: int, v: int)
    requires
        0 <= i < s.len(),
    ensures
        seq_sum(s.update(i, v)) == seq_sum(s) - s[i] + v,
    decreases s.len(),
{
    let t = s.update(i, v);
    if i == s.len() - 1 {
        assert(t.drop_last() =~= s.drop_last());
        assert(t.last() == v);
    } else {
        lemma_seq_sum_update(s.drop_last(), i, v);
        assert(t.drop_last() =~= s.drop_last().update(i, v));
        assert(t.last() == s.last());
    }
}

impl Board {
    /// Model of a fresh board: `Side::First` to move, every pit holding
    /// `SEED` seeds and both banked scores zero.
    pub open spec fn init_model(stealing: bool) -> BoardModel {
        BoardModel {
            side: Side::First,
            stealing,
            seeds: seq![
                Seq::new(PIT as nat, |i: int| SEED as int),
                Seq::new(PIT as nat, |i: int| SEED as int),
            ],
            score: seq![0, 0],
        }
    }

    pub open spec fn wf(&self) -> bool {
        self@.wf()
    }

    /// A fresh board; `stealing` fixes the capture rule for the whole game.
    pub fn new(stealing: bool) -> (r: Board)
        ensures
            r@ == Board::init_model(stealing),
            r.wf(),
            r@.total() == 2 * (PIT as int) * (SEED as int),
    {
        let r = Board {
            side: Side::First,
            stealing,
            seeds0: vec![SEED; PIT],
            seeds1: vec![SEED; PIT],
            score0: 0,
            score1: 0,
        };
        proof {
            let m = Board::init_model(stealing);
            assert(r@.seeds[0] =~= m.seeds[0]);
            assert(r@.seeds[1] =~= m.seeds[1]);
            assert(r@.seeds =~~= m.seeds);
            assert(r@.score =~= m.score);
            lemma_seq_sum_constant(m.seeds[0], SEED as int);
            lemma_seq_sum_constant(m.seeds[1], SEED as int);
        }
        r
    }

    /// The side to move.
    pub fn side(&self) -> (r: Side)
        ensures
            r == self@.side,
    {
        self.side
    }

    /// Whether the capture rule is enabled.
    pub fn stealing(&self) -> (r: bool)
        ensures
            r == self@.stealing,
    {
        self.stealing
    }

    /// The row of pits owned by the side to move.
    pub fn self_seeds(&self) -> (r: &Vec<u8>)
        ensures
            to_int_seq(r@) == self@.row(self@.side),
    {
        match self.side {
            Side::First => &self.seeds0,
            Side::Second => &self.seeds1,
        }
    }

    /// The row of pits owned by the opponent of the side to move.
    pub fn opposite_seed(&self) -> (r: &Vec<u8>)
        ensures
            to_int_seq(r@) == self@.row(self@.side.spec_turned()),
    {
        match self.side {
            Side::First => &self.seeds1,
            Side::Second => &self.seeds0,
        }
    }

    /// Banked scores of both sides, first side first.
    pub fn scores(&self) -> (r: (u8, u8))
        ensures
            r.0 == self@.score[0],
            r.1 == self@.score[1],
    {
        (self.score0, self.score1)
    }

    /// Banked score difference from the point of view of the side to move.
    pub fn score(&self) -> (r: i8)
        requires
            self.wf(),
        ensures
            r == self@.rel_score(),
    {
        proof {
            lemma_seq_sum_nonneg(self@.seeds[0]);
            lemma_seq_sum_nonneg(self@.seeds[1]);
        }
        if self.side == Side::First {
            self.score0 as i8 - self.score1 as i8
        } else {
            self.score1 as i8 - self.score0 as i8
        }
    }

    /// The game is over: one of the rows is entirely empty.
    pub fn is_finished(&self) -> (r: bool)
        ensures
            r == self@.finished(),
    {
        row_is_zero(&self.seeds0) || row_is_zero(&self.seeds1)
    }

    /// Read one pit.
    fn get_pit(&self, side: Side, pos: usize) -> (r: u8)
        requires
            self@.seeds.len() == 2,
            self@.seeds[0].len() == PIT,
            self@.seeds[1].len() == PIT,
            pos < PIT,
        ensures
            r as int == self@.row(side)[pos as int],
    {
        match side {
            Side::First => self.seeds0[pos],
            Side::Second => self.seeds1[pos],
        }
    }

    /// Empty one pit.
    fn set_pit_zero(&mut self, side: Side, pos: usize)
        requires
            old(self)@.seeds.len() == 2,
            old(self)@.seeds[0].len() == PIT,
            old(self)@.seeds[1].len() == PIT,
            pos < PIT,
        ensures
            final(self)@ == old(self)@.with_row(side, old(self)@.row(side).update(pos as int, 0)),
    {
        match side {
            Side::First => self.seeds0.set(pos, 0),
            Side::Second => self.seeds1.set(pos, 0),
        }
        proof {
            let goal = old(self)@.with_row(side, old(self)@.row(side).update(pos as int, 0));
            assert(self@.seeds[side.index()] =~= goal.seeds[side.index()]);
            assert(self@ =~~= goal);
        }
    }

    /// Drop one seed into a pit.
    fn inc_pit(&mut self, side: Side, pos: usize)
        requires
            old(self)@.seeds.len() == 2,
            old(self)@.seeds[0].len() == PIT,
            old(self)@.seeds[1].len() == PIT,
            pos < PIT,
            old(self)@.row(side)[pos as int] < 255,
        ensures
            final(self)@ == old(self)@.with_row(
                side,
                old(self)@.row(side).update(pos as int, old(self)@.row(side)[pos as int] + 1),
            ),
    {
        match side {
            Side::First => {
                let v = self.seeds0[pos];
                self.seeds0.set(pos, v + 1);
            },
            Side::Second => {
                let v = self.seeds1[pos];
                self.seeds1.set(pos, v + 1);
            },
        }
        proof {
            let goal = old(self)@.with_row(
                side,
                old(self)@.row(side).update(pos as int, old(self)@.row(side)[pos as int] + 1),
            );
            assert(self@.seeds[side.index()] =~= goal.seeds[side.index()]);
            assert(self@ =~~= goal);
        }
    }

    /// Bank `amount` seeds for `side`.
    fn add_score(&mut self, side: Side, amount: u8)
        requires
            old(self)@.score.len() == 2,
            old(self)@.banked(side) + amount <= 255,
            old(self)@.banked(side) >= 0,
        ensures
            final(self)@ == old(self)@.with_score(side, old(self)@.banked(side) + amount),
    {
        match side {
            Side::First => {
                self.score0 = self.score0 + amount;
            },
            Side::Second => {
                self.score1 = self.score1 + amount;
            },
        }
        proof {
            let goal = old(self)@.with_score(side, old(self)@.banked(side) + amount);
            assert(self@.score =~= goal.score);
            assert(self@ =~~= goal);
        }
    }

    /// Pass the turn to the other side.
    fn flip_side(&mut self)
        ensures
            final(self)@ == old(self)@.with_side(old(self)@.side.spec_turned()),
    {
        self.side = self.side.turned();
        proof {
            assert(self@ =~~= old(self)@.with_side(old(self)@.side.spec_turned()));
        }
    }

    /// Distribute `num` seeds starting at pit `pos` of `side`'s row, as
    /// `spec_move_seed` describes.
    #[verifier::loop_isolation(false)]
    fn move_seed(&mut self, side: Side, pos: usize, num: usize) -> (r: (Side, usize))
        requires
            old(self).wf(),
            move_domain(old(self)@, side, pos as int, num as int),
            old(self)@.total() + num <= SEED_LIMIT,
        ensures
            final(self)@ == spec_move_seed(old(self)@, side, pos as int, num as int).0,
            r.0 == spec_move_seed(old(self)@, side, pos as int, num as int).1,
            r.1 as int == spec_move_seed(old(self)@, side, pos as int, num as int).2,
        decreases num,
    {
        let ghost m0 = self@;
        proof {
            lemma_seq_sum_nonneg(m0.seeds[0]);
            lemma_seq_sum_nonneg(m0.seeds[1]);
            lemma_move_seed_props(m0, side, pos as int, num as int);
        }
        if pos + num <= PIT {
            let mut i: usize = pos;
            proof {
                assert(m0.with_row(side, inc_range(m0.row(side), pos as int, pos as int)) =~~= m0);
            }
            while i < pos + num
                invariant
                    pos <= i <= pos + num,
                    self@ == m0.with_row(side, inc_range(m0.row(side), pos as int, i as int)),
                decreases pos + num - i,
            {
                proof {
                    lemma_inc_range_sum(m0.row(side), pos as int, i as int);
                    lemma_with_row_total(m0, side, inc_range(m0.row(side), pos as int, i as int));
                    lemma_seq_sum_elem_bound(self@.row(side), i as int);
                    lemma_seq_sum_nonneg(self@.seeds[side.spec_turned().index()]);
                    assert(self@.row(side)[i as int] < 255);
                }
                self.inc_pit(side, i);
                proof {
                    let prev = inc_range(m0.row(side), pos as int, i as int);
                    let next = inc_range(m0.row(side), pos as int, i + 1);
                    assert(next =~= prev.update(i as int, prev[i as int] + 1));
                    assert(self@ =~~= m0.with_row(side, next));
                }
                i += 1;
            }
            proof {
                assert(self@ =~~= spec_move_seed(m0, side, pos as int, num as int).0);
            }
            (side, pos + num - 1)
        } else {
            let mut i: usize = pos;
            proof {
                assert(m0.with_row(side, inc_range(m0.row(side), pos as int, pos as int)) =~~= m0);
            }
            while i < PIT
                invariant
                    pos <= i <= PIT,
                    self@ == m0.with_row(side, inc_range(m0.row(side), pos as int, i as int)),
                decreases PIT - i,
            {
                proof {
                    lemma_inc_range_sum(m0.row(side), pos as int, i as int);
                    lemma_with_row_total(m0, side, inc_range(m0.row(side), pos as int, i as int));
                    lemma_seq_sum_elem_bound(self@.row(side), i as int);
                    lemma_seq_sum_nonneg(self@.seeds[side.spec_turned().index()]);
                    assert(self@.row(side)[i as int] < 255);
                }
                self.inc_pit(side, i);
                proof {
                    let prev = inc_range(m0.row(side), pos as int, i as int);
                    let next = inc_range(m0.row(side), pos as int, i + 1);
                    assert(next =~= prev.update(i as int, prev[i as int] + 1));
                    assert(self@ =~~= m0.with_row(side, next));
                }
                i += 1;
            }
            let ghost m1 = m0.with_row(side, inc_range(m0.row(side), pos as int, PIT as int));
            proof {
                lemma_inc_range_sum(m0.row(side), pos as int, PIT as int);
                lemma_with_row_total(m0, side, inc_range(m0.row(side), pos as int, PIT as int));
                lemma_seq_sum_nonneg(m1.seeds[0]);
                lemma_seq_sum_nonneg(m1.seeds[1]);
            }
            if self.side == side {
                proof {
                    assert(m1.banked(side) <= m1.total());
                }
                self.add_score(side, 1);
                let ghost m2 = m1.with_score(side, m1.banked(side) + 1);
                if pos + num == PIT + 1 {
                    return (side, PIT);
                }
                proof {
                    lemma_move_seed_props(m2, side.spec_turned(), 0, pos + num - PIT - 1);
                }
                self.move_seed(side.turned(), 0, pos + num - PIT - 1)
            } else {
                proof {
                    lemma_move_seed_props(m1, side.spec_turned(), 0, pos + num - (PIT as int));
                }
                self.move_seed(side.turned(), 0, pos + num - PIT)
            }
        }
    }

    /// May pit `pos` be sown by the side to move?  `Ok` exactly when `pos`
    /// names a pit of the mover's row that holds at least one seed.
    pub fn can_sow(&self, pos: usize) -> (r: Result<(), SowError>)
        requires
            self.wf(),
        ensures
            r is Ok <==> legal_pos(self@, pos as int),
            pos >= PIT ==> r == Err::<(), SowError>(SowError::InvalidPosition),
            pos < PIT && self@.row(self@.side)[pos as int] == 0 ==> r == Err::<(), SowError>(
                SowError::EmptyPit,
            ),
    {
        if pos >= PIT {
            return Err(SowError::InvalidPosition);
        }
        if self.get_pit(self.side, pos) == 0 {
            return Err(SowError::EmptyPit);
        }
        Ok(())
    }

    /// Sow pit `pos` for the side to move: lift its seeds, distribute them,
    /// and settle the extra-turn and capture rules, passing the turn unless
    /// the final seed landed in the mover's store with the game still open.
    /// Callers must check `can_sow` first.
    pub fn sow(&mut self, pos: usize)
        requires
            old(self).wf(),
            legal_pos(old(self)@, pos as int),
        ensures
            final(self)@ == spec_sow(old(self)@, pos as int),
    {
        let ghost m0 = self@;
        proof {
            lemma_seq_sum_nonneg(m0.seeds[0]);
            lemma_seq_sum_nonneg(m0.seeds[1]);
            lemma_seq_sum_elem_bound(m0.row(m0.side), pos as int);
        }
        let side = self.side;
        let num = self.get_pit(side, pos);
        self.set_pit_zero(side, pos);
        let ghost lifted = m0.with_row(m0.side, m0.row(m0.side).update(pos as int, 0));
        proof {
            lemma_seq_sum_update(m0.row(m0.side), pos as int, 0);
            lemma_with_row_total(m0, m0.side, m0.row(m0.side).update(pos as int, 0));
            lemma_move_seed_props(lifted, side, pos + 1, num as int);
        }
        let r = self.move_seed(side, pos + 1, num as usize);
        let end_side = r.0;
        let end_pos = r.1;
        let ghost m2 = spec_move_seed(lifted, m0.side, pos + 1, num as int).0;
        proof {
            lemma_seq_sum_nonneg(m2.seeds[0]);
            lemma_seq_sum_nonneg(m2.seeds[1]);
        }
        if end_side == side {
            if end_pos == PIT {
                if !self.is_finished() {
                    proof {
                        assert(self@ =~~= spec_sow(m0, pos as int));
                    }
                    return ;
                }
            } else if self.stealing {
                let own = self.get_pit(side, end_pos);
                if own == 1 {
                    let opp_pos = PIT - 1 - end_pos;
                    let opp = self.get_pit(side.turned(), opp_pos);
                    if opp > 0 {
                        proof {
                            lemma_seq_sum_elem_bound(
                                m2.row(side.spec_turned()),
                                opp_pos as int,
                            );
                        }
                        self.set_pit_zero(side, end_pos);
                        let ghost m3 = m2.with_row(
                            side,
                            m2.row(side).update(end_pos as int, 0),
                        );
                        self.set_pit_zero(side.turned(), opp_pos);
                        let ghost m4 = m3.with_row(
                            side.spec_turned(),
                            m3.row(side.spec_turned()).update(opp_pos as int, 0),
                        );
                        proof {
                            lemma_seq_sum_update(m2.row(side), end_pos as int, 0);
                            lemma_with_row_total(m2, side, m2.row(side).update(end_pos as int, 0));
                            lemma_seq_sum_update(m3.row(side.spec_turned()), opp_pos as int, 0);
                            lemma_with_row_total(
                                m3,
                                side.spec_turned(),
                                m3.row(side.spec_turned()).update(opp_pos as int, 0),
                            );
                            assert(m4.banked(side) <= m4.total()) by {
                                lemma_seq_sum_nonneg(m4.seeds[0]);
                                lemma_seq_sum_nonneg(m4.seeds[1]);
                            }
                        }
                        self.add_score(side, opp + 1);
                    }
                }
            }
        }
        self.flip_side();
        proof {
            assert(self@ =~~= spec_sow(m0, pos as int));
        }
    }
}

/// Extending a prefix sum by one element.
pub proof fn lemma_seq_sum_prefix(s: Seq<int>, i: int)
    requires
        0 <= i < s.len(),
    ensures
        seq_sum(s.subrange(0, i + 1)) == seq_sum(s.subrange(0, i)) + s[i],
{
    let left = s.subrange(0, i + 1);
    assert(left.drop_last() =~= s.subrange(0, i));
    assert(left.last() == s[i]);
}

/// A prefix of a non-negative row sums to no more than the whole row.
pub proof fn lemma_seq_sum_prefix_bound(s: Seq<int>, j: int)
    requires
        nonneg(s),
        0 <= j <= s.len(),
    ensures
        seq_sum(s.subrange(0, j)) <= seq_sum(s),
{
    lemma_seq_sum_split(s, j);
    assert(nonneg(s.subrange(j, s.len() as int)));
    lemma_seq_sum_nonneg(s.subrange(j, s.len() as int));
}

/// Sum of a row of pit counts; the caller guarantees it fits in a byte.
#[verifier::loop_isolation(false)]
fn row_sum(v: &Vec<u8>) -> (r: u8)
    requires
        seq_sum(to_int_seq(v@)) <= 255,
    ensures
        r as int == seq_sum(to_int_seq(v@)),
{
    let ghost s = to_int_seq(v@);
    proof {
        assert(forall|i: int| 0 <= i < s.len() ==> s[i] == v@[i] as int);
        assert(nonneg(s));
    }
    let mut acc: u8 = 0;
    let mut i: usize = 0;
    proof {
        assert(s.subrange(0, 0) =~= Seq::<int>::empty());
    }
    while i < v.len()
        invariant
            0 <= i <= v@.len(),
            acc as int == seq_sum(s.subrange(0, i as int)),
        decreases v@.len() - i,
    {
        proof {
            lemma_seq_sum_prefix(s, i as int);
            lemma_seq_sum_prefix_bound(s, i as int + 1);
        }
        acc = acc + v[i];
        i += 1;
    }
    proof {
        assert(s.subrange(0, s.len() as int) =~= s);
    }
    acc
}

/// Does every pit of the row hold zero seeds?
fn row_is_zero(v: &Vec<u8>) -> (r: bool)
    ensures
        r == all_zero(to_int_seq(v@)),
{
    let mut i: usize = 0;
    while i < v.len()
        invariant
            0 <= i <= v@.len(),
            forall|j: int| 0 <= j < i ==> v@[j] == 0,
        decreases v@.len() - i,
    {
        if v[i] != 0 {
            assert(to_int_seq(v@)[i as int] != 0);
            return false;
        }
        i += 1;
    }
    true
}

impl Board {
    /// Final scores of both sides: banked seeds plus the seeds still sitting
    /// in the side's own row.  Meaningful once the game is finished.
    pub fn last_scores(&self) -> (r: (u8, u8))
        requires
            self.wf(),
        ensures
            r.0 as int == self@.final_score0(),
            r.1 as int == self@.final_score1(),
    {
        proof {
            lemma_seq_sum_nonneg(self@.seeds[0]);
            lemma_seq_sum_nonneg(self@.seeds[1]);
        }
        let s0 = row_sum(&self.seeds0);
        let s1 = row_sum(&self.seeds1);
        (self.score0 + s0, self.score1 + s1)
    }

    /// Final score difference from the point of view of the side to move.
    pub fn last_score(&self) -> (r: i8)
        requires
            self.wf(),
        ensures
            r as int == self@.rel_last_score(),
    {
        proof {
            lemma_seq_sum_nonneg(self@.seeds[0]);
            lemma_seq_sum_nonneg(self@.seeds[1]);
        }
        let (s0, s1) = self.last_scores();
        if self.side == Side::First {
            s0 as i8 - s1 as i8
        } else {
            s1 as i8 - s0 as i8
        }
    }

    /// A board with `Side::First` to move, zero scores and the given pit
    /// counts: the first `PIT` entries fill the first row, the rest the
    /// second.  The counts must fit the board's seed budget.
    #[verifier::loop_isolation(false)]
    pub fn from_seeds(stealing: bool, seeds: &[u8]) -> (r: Board)
        requires
            seeds@.len() == 2 * PIT,
            seq_sum(to_int_seq(seeds@)) <= SEED_LIMIT,
        ensures
            r.wf(),
            r@.side == Side::First,
            r@.stealing == stealing,
            r@.score =~= seq![0int, 0int],
            r@.seeds[0] == to_int_seq(seeds@.subrange(0, PIT as int)),
            r@.seeds[1] == to_int_seq(seeds@.subrange(PIT as int, 2 * PIT as int)),
    {
        let mut s0: Vec<u8> = Vec::new();
        let mut s1: Vec<u8> = Vec::new();
        let mut i: usize = 0;
        proof {
            assert(s0@ =~= seeds@.subrange(0, 0));
        }
        while i < PIT
            invariant
                0 <= i <= PIT,
                s0@ == seeds@.subrange(0, i as int),
            decreases PIT - i,
        {
            s0.push(*slice_index_get(seeds, i));
            proof {
                assert(s0@ =~= seeds@.subrange(0, i + 1));
            }
            i += 1;
        }
        let mut j: usize = PIT;
        proof {
            assert(s1@ =~= seeds@.subrange(PIT as int, PIT as int));
        }
        while j < 2 * PIT
            invariant
                PIT <= j <= 2 * PIT,
                s1@ == seeds@.subrange(PIT as int, j as int),
            decreases 2 * PIT - j,
        {
            s1.push(*slice_index_get(seeds, j));
            proof {
                assert(s1@ =~= seeds@.subrange(PIT as int, j + 1));
            }
            j += 1;
        }
        let r = Board { side: Side::First, stealing, seeds0: s0, seeds1: s1, score0: 0, score1: 0 };
        proof {
            let w = to_int_seq(seeds@);
            assert(r@.seeds[0] =~= to_int_seq(seeds@.subrange(0, PIT as int)));
            assert(r@.seeds[1] =~= to_int_seq(seeds@.subrange(PIT as int, 2 * PIT as int)));
            assert(r@.seeds[0] =~= w.subrange(0, PIT as int));
            assert(r@.seeds[1] =~= w.subrange(PIT as int, 2 * PIT as int));
            lemma_seq_sum_split(w, PIT as int);
            assert(forall|k: int| 0 <= k < w.len() ==> w[k] == seeds@[k] as int);
            assert(nonneg(w));
            assert(nonneg(r@.seeds[0]));
            assert(nonneg(r@.seeds[1]));
            lemma_seq_sum_nonneg(r@.seeds[0]);
            lemma_seq_sum_nonneg(r@.seeds[1]);
        }
        r
    }
}

proof fn lemma_shl5(x: u64)
    requires
        x < 32,
    ensures
        (x << 5u64) == x * 32,
{
    assert(x < 32 ==> (x << 5u64) == x * 32) by (bit_vector);
}

proof fn lemma_shl10(x: u64)
    requires
        x < 32,
    ensures
        (x << 10u64) == x * 1024,
{
    assert(x < 32 ==> (x << 10u64) == x * 1024) by (bit_vector);
}

proof fn lemma_shl16(x: u64)
    requires
        x < 0x8000,
    ensures
        (x << 16u64) == x * 0x10000,
{
    assert(x < 0x8000 ==> (x << 16u64) == x * 0x10000) by (bit_vector);
}

proof fn lemma_shl32(x: u64)
    requires
        x < 0x8000,
    ensures
        (x << 32u64) == x * 0x100000000,
{
    assert(x < 0x8000 ==> (x << 32u64) == x * 0x100000000) by (bit_vector);
}

proof fn lemma_shl48(x: u64)
    requires
        x < 0x8000,
    ensures
        (x << 48u64) == x * 0x1000000000000,
{
    assert(x < 0x8000 ==> (x << 48u64) == x * 0x1000000000000) by (bit_vector);
}

proof fn lemma_mask5(x: u64)
    ensures
        (x & 0x1f) < 32,
{
    assert((x & 0x1f) < 32) by (bit_vector);
}

/// The board's twelve pit counts packed into five-bit fields of one word,
/// the mover's row in the upper half: a compact table key for positions
/// whose pits all hold fewer than 32 seeds.  Scores and the rule flag are
/// not part of the key.
pub open spec fn spec_compact_key(m: BoardModel) -> int {
    let s = m.row(m.side);
    let t = m.row(m.side.spec_turned());
    let k0 = s[0] * 1024 + s[1] * 32 + s[2];
    let k1 = s[3] * 1024 + s[4] * 32 + s[5];
    let k2 = t[0] * 1024 + t[1] * 32 + t[2];
    let k3 = t[3] * 1024 + t[4] * 32 + t[5];
    k0 * 0x1000000000000 + k1 * 0x100000000 + k2 * 0x10000 + k3
}

proof fn lemma_unpack_fields(
    key: u64,
    s0: u64,
    s1: u64,
    s2: u64,
    s3: u64,
    s4: u64,
    s5: u64,
    t0: u64,
    t1: u64,
    t2: u64,
    t3: u64,
    t4: u64,
    t5: u64,
)
    requires
        s0 < 32 && s1 < 32 && s2 < 32 && s3 < 32 && s4 < 32 && s5 < 32,
        t0 < 32 && t1 < 32 && t2 < 32 && t3 < 32 && t4 < 32 && t5 < 32,
        key == (s0 * 1024 + s1 * 32 + s2) * 0x1000000000000 + (s3 * 1024 + s4 * 32 + s5)
            * 0x100000000 + (t0 * 1024 + t1 * 32 + t2) * 0x10000 + (t3 * 1024 + t4 * 32 + t5),
    ensures
        (key >> 58u64) & 0x1f == s0,
        (key >> 53u64) & 0x1f == s1,
        (key >> 48u64) & 0x1f == s2,
        (key >> 42u64) & 0x1f == s3,
        (key >> 37u64) & 0x1f == s4,
        (key >> 32u64) & 0x1f == s5,
        (key >> 26u64) & 0x1f == t0,
        (key >> 21u64) & 0x1f == t1,
        (key >> 16u64) & 0x1f == t2,
        (key >> 10u64) & 0x1f == t3,
        (key >> 5u64) & 0x1f == t4,
        key & 0x1f == t5,
{
    assert((s0 < 32 && s1 < 32 && s2 < 32 && s3 < 32 && s4 < 32 && s5 < 32 && t0 < 32 && t1 < 32
        && t2 < 32 && t3 < 32 && t4 < 32 && t5 < 32 && key == (s0 * 1024 + s1 * 32 + s2)
        * 0x1000000000000 + (s3 * 1024 + s4 * 32 + s5) * 0x100000000 + (t0 * 1024 + t1 * 32 + t2)
        * 0x10000 + (t3 * 1024 + t4 * 32 + t5)) ==> ((key >> 58u64) & 0x1f == s0 && (key
        >> 53u64) & 0x1f == s1 && (key >> 48u64) & 0x1f == s2 && (key >> 42u64) & 0x1f == s3 && (
    key >> 37u64) & 0x1f == s4 && (key >> 32u64) & 0x1f == s5 && (key >> 26u64) & 0x1f == t0 && (
    key >> 21u64) & 0x1f == t1 && (key >> 16u64) & 0x1f == t2 && (key >> 10u64) & 0x1f == t3 && (
    key >> 5u64) & 0x1f == t4 && key & 0x1f == t5)) by (bit_vector);
}

/// Round trip of the compact key: unpacking the key of a board whose pits
/// all hold fewer than 32 seeds recovers exactly the twelve pit counts,
/// mover's row first.  This ties `compact_key` and `from_compact_key`
/// together for every board the key supports.
pub proof fn lemma_compact_key_roundtrip(m: BoardModel, key: u64)
    requires
        m.wf(),
        forall|i: int| 0 <= i < PIT ==> m.row(m.side)[i] < 32,
        forall|i: int| 0 <= i < PIT ==> m.row(m.side.spec_turned())[i] < 32,
        key as int == spec_compact_key(m),
    ensures
        ((key >> 58u64) & 0x1f) as int == m.row(m.side)[0],
        ((key >> 53u64) & 0x1f) as int == m.row(m.side)[1],
        ((key >> 48u64) & 0x1f) as int == m.row(m.side)[2],
        ((key >> 42u64) & 0x1f) as int == m.row(m.side)[3],
        ((key >> 37u64) & 0x1f) as int == m.row(m.side)[4],
        ((key >> 32u64) & 0x1f) as int == m.row(m.side)[5],
        ((key >> 26u64) & 0x1f) as int == m.row(m.side.spec_turned())[0],
        ((key >> 21u64) & 0x1f) as int == m.row(m.side.spec_turned())[1],
        ((key >> 16u64) & 0x1f) as int == m.row(m.side.spec_turned())[2],
        ((key >> 10u64) & 0x1f) as int == m.row(m.side.spec_turned())[3],
        ((key >> 5u64) & 0x1f) as int == m.row(m.side.spec_turned())[4],
        (key & 0x1f) as int == m.row(m.side.spec_turned())[5],
{
    let s = m.row(m.side);
    let t = m.row(m.side.spec_turned());
    lemma_unpack_fields(
        key,
        s[0] as u64,
        s[1] as u64,
        s[2] as u64,
        s[3] as u64,
        s[4] as u64,
        s[5] as u64,
        t[0] as u64,
        t[1] as u64,
        t[2] as u64,
        t[3] as u64,
        t[4] as u64,
        t[5] as u64,
    );
}

/// Pack the pit counts of `board` into one word, mover's row first.
pub fn compact_key(board: &Board) -> (r: u64)
    requires
        board.wf(),
        forall|i: int| 0 <= i < PIT ==> board@.row(board@.side)[i] < 32,
        forall|i: int| 0 <= i < PIT ==> board@.row(board@.side.spec_turned())[i] < 32,
    ensures
        r as int == spec_compact_key(board@),
{
    let s = board.self_seeds();
    let t = board.opposite_seed();
    proof {
        assert(forall|i: int| 0 <= i < 6 ==> to_int_seq(s@)[i] == s@[i] as int);
        assert(forall|i: int| 0 <= i < 6 ==> to_int_seq(t@)[i] == t@[i] as int);
        lemma_shl10(s[0] as u64);
        lemma_shl5(s[1] as u64);
        lemma_shl10(s[3] as u64);
        lemma_shl5(s[4] as u64);
        lemma_shl10(t[0] as u64);
        lemma_shl5(t[1] as u64);
        lemma_shl10(t[3] as u64);
        lemma_shl5(t[4] as u64);
    }
    let k0 = ((s[0] as u64) << 10u64) + ((s[1] as u64) << 5u64) + (s[2] as u64);
    let k1 = ((s[3] as u64) << 10u64) + ((s[4] as u64) << 5u64) + (s[5] as u64);
    let k2 = ((t[0] as u64) << 10u64) + ((t[1] as u64) << 5u64) + (t[2] as u64);
    let k3 = ((t[3] as u64) << 10u64) + ((t[4] as u64) << 5u64) + (t[5] as u64);
    proof {
        lemma_shl48(k0);
        lemma_shl32(k1);
        lemma_shl16(k2);
    }
    (k0 << 48u64) + (k1 << 32u64) + (k2 << 16u64) + k3
}

/// Unpack a compact key into its twelve five-bit pit counts, mover's row in
/// the first six entries.
pub fn from_compact_key(key: u64) -> (r: [u8; 12])
    ensures
        r@[0] as u64 == (key >> 58u64) & 0x1f,
        r@[1] as u64 == (key >> 53u64) & 0x1f,
        r@[2] as u64 == (key >> 48u64) & 0x1f,
        r@[3] as u64 == (key >> 42u64) & 0x1f,
        r@[4] as u64 == (key >> 37u64) & 0x1f,
        r@[5] as u64 == (key >> 32u64) & 0x1f,
        r@[6] as u64 == (key >> 26u64) & 0x1f,
        r@[7] as u64 == (key >> 21u64) & 0x1f,
        r@[8] as u64 == (key >> 16u64) & 0x1f,
        r@[9] as u64 == (key >> 10u64) & 0x1f,
        r@[10] as u64 == (key >> 5u64) & 0x1f,
        r@[11] as u64 == key & 0x1f,
{
    proof {
        lemma_mask5(key >> 58u64);
        lemma_mask5(key >> 53u64);
        lemma_mask5(key >> 48u64);
        lemma_mask5(key >> 42u64);
        lemma_mask5(key >> 37u64);
        lemma_mask5(key >> 32u64);
        lemma_mask5(key >> 26u64);
        lemma_mask5(key >> 21u64);
        lemma_mask5(key >> 16u64);
        lemma_mask5(key >> 10u64);
        lemma_mask5(key >> 5u64);
        lemma_mask5(key);
    }
    let b0 = ((key >> 58u64) & 0x1f) as u8;
    let b1 = ((key >> 53u64) & 0x1f) as u8;
    let b2 = ((key >> 48u64) & 0x1f) as u8;
    let b3 = ((key >> 42u64) & 0x1f) as u8;
    let b4 = ((key >> 37u64) & 0x1f) as u8;
    let b5 = ((key >> 32u64) & 0x1f) as u8;
    let b6 = ((key >> 26u64) & 0x1f) as u8;
    let b7 = ((key >> 21u64) & 0x1f) as u8;
    let b8 = ((key >> 16u64) & 0x1f) as u8;
    let b9 = ((key >> 10u64) & 0x1f) as u8;
    let b10 = ((key >> 5u64) & 0x1f) as u8;
    let b11 = (key & 0x1f) as u8;
    [b0, b1, b2, b3, b4, b5, b6, b7, b8, b9, b10, b11]
}

} // verus!
