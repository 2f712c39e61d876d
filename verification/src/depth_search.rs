//! The depth-bounded alpha-beta move chooser.

use vstd::prelude::*;

use crate::board::{
    clone_positions, entries_set, lemma_entries_set_contains, lemma_turn_chain_sowable,
    lemma_turn_list_nonempty, lemma_turn_list_props, turn_chain, turn_outcomes, Board, BoardModel,
};
use crate::evaluator::Evaluator;
use crate::score::Score;
use crate::utils::{ab_search, exact_window, lemma_nmax_bounds, lemma_score_laws_auto, nmax};
use crate::Searcher;

verus! {

/// The flipped negamax value a candidate turn offers the side that chose it.
pub open spec fn candidate_value<E: Evaluator>(c: BoardModel, depth: nat) -> E::Score {
    nmax::<E>(c, depth).spec_flip()
}

/// Does this evaluator let the search prove exact optimality?
pub open spec fn exact_search<E: Evaluator>() -> bool {
    E::deterministic() && E::Score::obeys_laws()
}

/// Chooses moves by depth-bounded alpha-beta search: every legal completed
/// turn is a candidate, each is searched with a window that only needs to
/// beat the best candidate so far, and the best candidate's move chain is
/// played.  Ties keep the first candidate found; a single legal turn is
/// played without searching.
#[derive(Debug)]
pub struct DepthSearcher<E> {
    max_depth: usize,
    evaluator: E,
}

impl<E: Evaluator> DepthSearcher<E> {
    /// The search depth this chooser explores candidates to.
    pub closed spec fn spec_depth(&self) -> nat {
        self.max_depth as nat
    }

    pub fn new(evaluator: E, max_depth: usize) -> (r: DepthSearcher<E>)
        requires
            evaluator.inv(),
        ensures
            r.inv(),
            r.spec_depth() == max_depth,
    {
        DepthSearcher { max_depth, evaluator }
    }
}

impl<E: Evaluator> Searcher for DepthSearcher<E> {
    closed spec fn inv(&self) -> bool {
        self.evaluator.inv()
    }

    /// Besides a playable turn, for a deterministic evaluator over a lawful
    /// score kind the chosen chain completes a turn whose flipped negamax
    /// value is maximal among all reachable turns: pruning and window
    /// tightening never change the chosen value.
    #[verifier::loop_isolation(false)]
    #[verifier::rlimit(100)]
    fn sow(&mut self, board: &Board) -> (r: Vec<usize>)
        ensures
            final(self).spec_depth() == old(self).spec_depth(),
            exists|b: BoardModel| #[trigger] turn_chain(board@, r@, b),
            exact_search::<E>() ==> exists|b: BoardModel|
                {
                    &&& #[trigger] turn_chain(board@, r@, b)
                    &&& turn_outcomes(board@).contains(b)
                    &&& forall|c: BoardModel|
                        #[trigger] turn_outcomes(board@).contains(c) ==> candidate_value::<E>(
                            c,
                            old(self).spec_depth(),
                        ).spec_le(candidate_value::<E>(b, old(self).spec_depth()))
                },
    {
        let ghost m = board@;
        let ghost d = self.max_depth as nat;
        let entries = board.list_next_with_pos();
        proof {
            lemma_turn_list_nonempty(m);
            let first = crate::board::turn_list(m)[0];
            assert(crate::board::turn_list(m).contains(first));
            assert(turn_outcomes(m).contains(first));
            assert(entries_set(entries@).contains(first));
            assert(entries@.len() > 0);
            lemma_turn_list_props(m);
            if exact_search::<E>() {
                lemma_score_laws_auto::<E::Score>();
                assert forall|j: int| 0 <= j < entries@.len() implies candidate_value::<E>(
                    (#[trigger] entries@[j]).0@,
                    d,
                ).in_range() by {
                    lemma_entries_set_contains(entries@, j);
                    assert(crate::board::turn_list(m).contains(entries@[j].0@));
                    lemma_nmax_bounds::<E>(entries@[j].0@, d);
                }
            }
        }
        if entries.len() == 1 {
            let ps = clone_positions(&entries[0].1);
            proof {
                assert(turn_chain(m, ps@, entries@[0].0@));
                lemma_turn_chain_sowable(m, ps@, entries@[0].0@);
                if exact_search::<E>() {
                    lemma_score_laws_auto::<E::Score>();
                    let b = entries@[0].0@;
                    lemma_entries_set_contains(entries@, 0);
                    assert forall|c: BoardModel| #[trigger] turn_outcomes(m).contains(c) implies
                        candidate_value::<E>(c, d).spec_le(candidate_value::<E>(b, d)) by {
                        let j = choose|j: int|
                            0 <= j < entries@.len() && (#[trigger] entries@[j]).0@ == c;
                        assert(c == b);
                    }
                }
            }
            return ps;
        }
        let mut best_ps: Vec<usize> = Vec::new();
        let mut best_score = E::Score::min_value();
        let mut i: usize = 0;
        while i < entries.len()
            invariant
                self.evaluator.inv(),
                self.max_depth == old(self).max_depth,
                best_score.in_range(),
                i <= entries@.len(),
                best_ps@.len() == 0 <==> i == 0,
                i >= 1 ==> exists|j: int|
                    0 <= j < i && best_ps@ == (#[trigger] entries@[j]).1@,
                exact_search::<E>() ==> {
                    &&& (i == 0 ==> best_score == E::Score::spec_min())
                    &&& forall|j: int|
                        0 <= j < i ==> candidate_value::<E>(
                            (#[trigger] entries@[j]).0@,
                            d,
                        ).spec_le(best_score)
                    &&& (i >= 1 ==> exists|j: int|
                        0 <= j < i && best_ps@ == (#[trigger] entries@[j]).1@ && best_score
                            == candidate_value::<E>(entries@[j].0@, d))
                },
            decreases entries@.len() - i,
        {
            let child = entries[i].0.clone();
            proof {
                assert(entries@[i as int].0.wf());
                E::Score::lemma_flip_range(best_score);
                E::Score::lemma_flip_range(E::Score::spec_min());
                if exact_search::<E>() {
                    lemma_score_laws_auto::<E::Score>();
                    E::Score::lemma_flip_range(E::Score::spec_max());
                }
            }
            let s = ab_search(
                child,
                &mut self.evaluator,
                self.max_depth,
                E::Score::min_value(),
                best_score.flip(),
            );
            proof {
                E::Score::lemma_flip_range(s);
            }
            let a = s.flip();
            let ghost best0 = best_score;
            let ghost u = candidate_value::<E>(entries@[i as int].0@, d);
            proof {
                if exact_search::<E>() {
                    lemma_score_laws_auto::<E::Score>();
                    let vc = nmax::<E>(entries@[i as int].0@, d);
                    let mn = E::Score::spec_min();
                    let mx = E::Score::spec_max();
                    lemma_nmax_bounds::<E>(entries@[i as int].0@, d);
                    if mn == best0.spec_flip() {
                        // the window is empty: best0 already dominates every
                        // supported value, so neither this candidate nor its
                        // search result can beat it
                        assert(best0 == mn.spec_flip());
                        assert(mn.spec_le(mx.spec_flip()));
                        assert(mx.spec_le(mn.spec_flip()));
                        assert(u.spec_le(best0));
                        assert(a.spec_le(best0));
                        if i == 0 {
                            assert(best0 == mn);
                            assert(mx.spec_le(mn));
                            assert(mn.spec_le(mx));
                            assert(false);
                        }
                    } else {
                        assert(exact_window::<E>(mn, best0.spec_flip()));
                        // translate the fail-hard contract of this search
                        if s.spec_le(mn) {
                            assert(s == mn);
                            assert(vc == mn);
                            assert(a == u);
                        } else if best0.spec_flip().spec_le(s) {
                            assert(best0.spec_flip().spec_le(vc));
                            assert(a.spec_le(best0));
                            assert(u.spec_le(best0));
                            if i == 0 {
                                // with the full window the bounds force both
                                // the estimate and the value onto the sentinel
                                assert(best0 == mn);
                                assert(s.spec_le(mn.spec_flip()));
                                assert(s == mn.spec_flip());
                                assert(vc.spec_le(mn.spec_flip()));
                                assert(vc == mn.spec_flip());
                                assert(a == u);
                            }
                        } else {
                            assert(s == vc);
                            assert(a == u);
                        }
                    }
                }
            }
            if best_ps.is_empty() || !a.le(&best_score) {
                best_score = a;
                best_ps = clone_positions(&entries[i].1);
            }
            proof {
                if exact_search::<E>() {
                    lemma_score_laws_auto::<E::Score>();
                    if best_score == best0 && !(i == 0) {
                        // not taken: this candidate's value does not beat best0
                        assert(u.spec_le(best0));
                    }
                    if !a.spec_le(best0) || i == 0 {
                        // taken: the estimate was exact for this candidate
                        assert(best_score == a && a == u);
                    }
                    assert forall|j: int| 0 <= j < i + 1 implies candidate_value::<E>(
                        (#[trigger] entries@[j]).0@,
                        d,
                    ).spec_le(best_score) by {
                        if j < i {
                            assert(candidate_value::<E>(entries@[j].0@, d).spec_le(best0));
                            assert(best0.spec_le(best_score));
                        } else {
                            if a.spec_le(best0) && i > 0 {
                                assert(u.spec_le(best0));
                            }
                        }
                    }
                }
            }
            i += 1;
        }
        proof {
            let jw = choose|j: int| 0 <= j < entries@.len() && best_ps@ == (#[trigger] entries@[j]).1@;
            assert(turn_chain(m, best_ps@, entries@[jw].0@));
            lemma_turn_chain_sowable(m, best_ps@, entries@[jw].0@);
            if exact_search::<E>() {
                lemma_score_laws_auto::<E::Score>();
                let jv = choose|j: int|
                    0 <= j < entries@.len() && best_ps@ == (#[trigger] entries@[j]).1@
                        && best_score == candidate_value::<E>(entries@[j].0@, d);
                let b = entries@[jv].0@;
                lemma_entries_set_contains(entries@, jv);
                assert(turn_outcomes(m).contains(b));
                assert forall|c: BoardModel| #[trigger] turn_outcomes(m).contains(c) implies
                    candidate_value::<E>(c, d).spec_le(candidate_value::<E>(b, d)) by {
                    let j = choose|j: int|
                        0 <= j < entries@.len() && (#[trigger] entries@[j]).0@ == c;
                    assert(candidate_value::<E>(entries@[j].0@, d).spec_le(best_score));
                }
            }
        }
        best_ps
    }
}

} // verus!