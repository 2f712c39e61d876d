//! A fast, non-searching strategy used as a baseline opponent.

use vstd::prelude::*;

use crate::board::{
    apply_chain, legal_pos, lemma_apply_chain_push, lemma_same_side_chain_push, lemma_sow_props,
    lemma_sowable_chain_push, lemma_turn_chain_push, lemma_turn_chain_sowable, same_side_chain,
    spec_sow, to_int_seq, Board, BoardModel, PIT,
};
use crate::rng::rand_below;
use crate::Searcher;
use rand_pcg::Mcg128Xsl64;

verus! {

/// Sowing `pos` drops its final seed exactly in the mover's store: a free
/// extra turn, unless it ends the game.
pub open spec fn stores_exactly(m: BoardModel, pos: int) -> bool {
    legal_pos(m, pos) && m.row(m.side)[pos] == PIT - pos
}

/// Sowing `pos` spills past the mover's store into the opponent's row; with
/// capturing off the last pit is not considered.
pub open spec fn spills_over(m: BoardModel, stealing: bool, pos: int) -> bool {
    legal_pos(m, pos) && m.row(m.side)[pos] > PIT - pos && (stealing || pos < PIT - 1)
}

/// The pit the greedy rule plays once no pit lands exactly in the store: the
/// highest pit spilling into the opponent's row when one exists; otherwise,
/// with capturing on, any legal pit (drawn at random); with capturing off,
/// the highest legal pit before the last one, and the last pit only when it
/// alone holds seeds.
pub open spec fn greedy_final_ok(m: BoardModel, stealing: bool, pos: int) -> bool {
    if exists|q: int| spills_over(m, stealing, q) {
        spills_over(m, stealing, pos) && (forall|q: int|
            pos < q < PIT ==> !spills_over(m, stealing, q))
    } else if stealing {
        legal_pos(m, pos)
    } else if exists|q: int| q < PIT - 1 && legal_pos(m, q) {
        pos < PIT - 1 && legal_pos(m, pos) && (forall|q: int|
            pos < q < PIT - 1 ==> m.row(m.side)[q] == 0)
    } else {
        legal_pos(m, pos)
    }
}

/// Greedy play: chain every sow whose final seed lands exactly in the
/// mover's store (each is a free extra turn); once none is left, prefer the
/// highest pit that spills into the opponent's row; failing that, fall back
/// to a uniformly random legal pit when capturing is on, or to the highest
/// legal pit (avoiding the last pit when possible) when it is off.
#[derive(Debug)]
pub struct GreedySearcher {
    stealing: bool,
    random: Mcg128Xsl64,
}

impl GreedySearcher {
    /// The capture-rule flag the fallback preferences follow.
    pub closed spec fn spec_stealing(&self) -> bool {
        self.stealing
    }

    pub fn new(stealing: bool, random: Mcg128Xsl64) -> (r: GreedySearcher)
        ensures
            r.inv(),
            r.spec_stealing() == stealing,
    {
        GreedySearcher { stealing, random }
    }
}

impl Searcher for GreedySearcher {
    open spec fn inv(&self) -> bool {
        true
    }

    /// Besides the trait's guarantee, the answer follows the greedy
    /// preference order: every move before the last lands exactly in the
    /// mover's store on the board it is played on, and the last move either
    /// also does (the game ended on it) or is played on a board with no
    /// store-landing pit left and satisfies `greedy_final_ok`.
    #[verifier::loop_isolation(false)]
    #[verifier::rlimit(100)]
    fn sow(&mut self, board: &Board) -> (r: Vec<usize>)
        ensures
            final(self).spec_stealing() == old(self).spec_stealing(),
            ({
                let prefix = r@.drop_last();
                let bf = apply_chain(board@, prefix);
                let last = r@.last() as int;
                &&& forall|k: int|
                    0 <= k < prefix.len() ==> stores_exactly(
                        apply_chain(board@, prefix.subrange(0, k)),
                        (#[trigger] prefix[k]) as int,
                    )
                &&& (stores_exactly(bf, last) || ((forall|q: int|
                    0 <= q < PIT ==> !stores_exactly(bf, q)) && greedy_final_ok(
                    bf,
                    old(self).spec_stealing(),
                    last,
                )))
            }),
    {
        let ghost m0 = board@;
        let mut b = board.clone();
        let side = b.side();
        let mut ret: Vec<usize> = Vec::new();
        let mut mine = true;
        while mine
            invariant
                b.wf(),
                b@.total() == m0.total(),
                b@.side == m0.side,
                side == m0.side,
                !b@.finished(),
                same_side_chain(m0, ret@, b@),
                apply_chain(m0, ret@) == b@,
                forall|k: int|
                    0 <= k < ret@.len() ==> stores_exactly(
                        apply_chain(m0, ret@.subrange(0, k)),
                        (#[trigger] ret@[k]) as int,
                    ),
                !mine ==> forall|j: int| 0 <= j < PIT ==> b@.row(b@.side)[j] != PIT - j,
            decreases b@.pits_total(), b@.phi(), (if mine {
                1int
            } else {
                0int
            }),
        {
            mine = false;
            // highest pit whose seeds land exactly in the mover's store
            let mut pos: usize = PIT;
            let mut found = false;
            let mut fpos: usize = 0;
            while pos > 0 && !found
                invariant
                    pos <= PIT,
                    found ==> (fpos < PIT && b@.row(b@.side)[fpos as int] == PIT - fpos),
                    !found ==> forall|j: int| pos <= j < PIT ==> b@.row(b@.side)[j] != PIT - j,
                decreases pos,
            {
                pos -= 1;
                let row = b.self_seeds();
                let s = row[pos];
                proof {
                    assert(to_int_seq(row@)[pos as int] == s as int);
                }
                if PIT - pos == s as usize {
                    found = true;
                    fpos = pos;
                }
            }
            if found {
                proof {
                    assert(legal_pos(b@, fpos as int));
                    lemma_sow_props(b@, fpos as int);
                    crate::board::lemma_seq_sum_nonneg(spec_sow(b@, fpos as int).seeds[0]);
                    crate::board::lemma_seq_sum_nonneg(spec_sow(b@, fpos as int).seeds[1]);
                    crate::board::lemma_row_phi_nonneg(spec_sow(b@, fpos as int).seeds[0]);
                    crate::board::lemma_row_phi_nonneg(spec_sow(b@, fpos as int).seeds[1]);
                }
                let ghost ret0 = ret@;
                let ghost bm = b@;
                b.sow(fpos);
                ret.push(fpos);
                proof {
                    lemma_apply_chain_push(m0, ret0, fpos);
                    assert forall|k: int|
                        0 <= k < ret@.len() implies stores_exactly(
                        apply_chain(m0, ret@.subrange(0, k)),
                        (#[trigger] ret@[k]) as int,
                    ) by {
                        if k < ret0.len() {
                            assert(ret@.subrange(0, k) =~= ret0.subrange(0, k));
                            assert(ret@[k] == ret0[k]);
                        } else {
                            assert(ret@.subrange(0, k) =~= ret0);
                            assert(ret@[k] == fpos);
                            assert(stores_exactly(bm, fpos as int));
                        }
                    }
                }
                if side != b.side() {
                    proof {
                        lemma_turn_chain_push(m0, ret0, bm, fpos);
                        lemma_turn_chain_sowable(m0, ret@, b@);
                        assert(ret@.drop_last() =~= ret0);
                        assert(stores_exactly(bm, fpos as int));
                    }
                    return ret;
                }
                proof {
                    lemma_same_side_chain_push(m0, ret0, bm, fpos);
                }
                mine = true;
            }
        }
        let ghost bf = b@;
        proof {
            assert forall|q: int| 0 <= q < PIT implies !stores_exactly(bf, q) by {
                assert(bf.row(bf.side)[q] != PIT - q);
            }
        }
        // highest pit that spills past the mover's row into the opponent's
        let mut pos: usize = PIT;
        while pos > 0
            invariant
                pos <= PIT,
                same_side_chain(m0, ret@, b@),
                apply_chain(m0, ret@) == b@,
                forall|k: int|
                    0 <= k < ret@.len() ==> stores_exactly(
                        apply_chain(m0, ret@.subrange(0, k)),
                        (#[trigger] ret@[k]) as int,
                    ),
                forall|j: int| pos <= j < PIT ==> !spills_over(bf, self.stealing, j),
            decreases pos,
        {
            pos -= 1;
            let row = b.self_seeds();
            let s = row[pos];
            proof {
                assert(to_int_seq(row@)[pos as int] == s as int);
            }
            if PIT - pos < s as usize && (self.stealing || pos < PIT - 1) {
                proof {
                    assert(legal_pos(b@, pos as int));
                    assert(spills_over(bf, self.stealing, pos as int));
                    lemma_sowable_chain_push(m0, ret@, b@, pos);
                    assert(ret@.push(pos).drop_last() =~= ret@);
                }
                ret.push(pos);
                return ret;
            }
        }
        proof {
            assert forall|q: int| true implies !spills_over(bf, self.stealing, q) by {
                if 0 <= q < PIT {
                    assert(!spills_over(bf, self.stealing, q));
                }
            }
        }
        if self.stealing {
            // uniformly random legal pit
            let mut cond: Vec<usize> = Vec::new();
            let mut p: usize = 0;
            while p < PIT
                invariant
                    p <= PIT,
                    same_side_chain(m0, ret@, b@),
                    apply_chain(m0, ret@) == b@,
                    forall|k: int|
                        0 <= k < ret@.len() ==> stores_exactly(
                            apply_chain(m0, ret@.subrange(0, k)),
                            (#[trigger] ret@[k]) as int,
                        ),
                    forall|j: int|
                        0 <= j < cond@.len() ==> ((#[trigger] cond@[j]) < PIT && b@.row(b@.side)[
                            cond@[j] as int] > 0),
                    cond@.len() == 0 ==> forall|j: int| 0 <= j < p ==> b@.row(b@.side)[j] == 0,
                decreases PIT - p,
            {
                let row = b.self_seeds();
                let s = row[p];
                proof {
                    assert(to_int_seq(row@)[p as int] == s as int);
                }
                if s > 0 {
                    cond.push(p);
                }
                p += 1;
            }
            proof {
                if cond@.len() == 0 {
                    assert(crate::board::all_zero(b@.row(b@.side)));
                    assert(b@.finished());
                }
            }
            let idx = rand_below(&mut self.random, cond.len());
            let cpos = cond[idx];
            proof {
                assert(legal_pos(b@, cpos as int));
                lemma_sowable_chain_push(m0, ret@, b@, cpos);
                assert(ret@.push(cpos).drop_last() =~= ret@);
            }
            ret.push(cpos);
            ret
        } else {
            // highest legal pit before the last one
            let mut pos: usize = PIT - 1;
            while pos > 0
                invariant
                    pos <= PIT - 1,
                    same_side_chain(m0, ret@, b@),
                    apply_chain(m0, ret@) == b@,
                    forall|k: int|
                        0 <= k < ret@.len() ==> stores_exactly(
                            apply_chain(m0, ret@.subrange(0, k)),
                            (#[trigger] ret@[k]) as int,
                        ),
                    forall|j: int| pos <= j < PIT - 1 ==> b@.row(b@.side)[j] == 0,
                decreases pos,
            {
                pos -= 1;
                let row = b.self_seeds();
                let s = row[pos];
                proof {
                    assert(to_int_seq(row@)[pos as int] == s as int);
                }
                if s > 0 {
                    proof {
                        assert(legal_pos(b@, pos as int));
                        assert(pos < PIT - 1 && legal_pos(bf, pos as int));
                        lemma_sowable_chain_push(m0, ret@, b@, pos);
                        assert(ret@.push(pos).drop_last() =~= ret@);
                    }
                    ret.push(pos);
                    return ret;
                }
            }
            // otherwise any legal pit; one exists because the game is open
            proof {
                assert forall|q: int| !(q < PIT - 1 && legal_pos(bf, q)) by {
                    if 0 <= q < PIT - 1 {
                        assert(bf.row(bf.side)[q] == 0);
                    }
                }
            }
            let mut pos2: usize = PIT;
            while pos2 > 0
                invariant
                    pos2 <= PIT,
                    same_side_chain(m0, ret@, b@),
                    apply_chain(m0, ret@) == b@,
                    forall|k: int|
                        0 <= k < ret@.len() ==> stores_exactly(
                            apply_chain(m0, ret@.subrange(0, k)),
                            (#[trigger] ret@[k]) as int,
                        ),
                    forall|j: int| pos2 <= j < PIT ==> b@.row(b@.side)[j] == 0,
                decreases pos2,
            {
                pos2 -= 1;
                let row = b.self_seeds();
                let s = row[pos2];
                proof {
                    assert(to_int_seq(row@)[pos2 as int] == s as int);
                }
                if s > 0 {
                    proof {
                        assert(legal_pos(b@, pos2 as int));
                        lemma_sowable_chain_push(m0, ret@, b@, pos2);
                        assert(ret@.push(pos2).drop_last() =~= ret@);
                    }
                    ret.push(pos2);
                    return ret;
                }
            }
            proof {
                assert(crate::board::all_zero(b@.row(b@.side)));
                assert(b@.finished());
                assert(false);
            }
            ret
        }
    }
}

} // verus!
