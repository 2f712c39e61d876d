//! Search primitives shared by the move-choosing strategies: the alpha-beta
//! negamax search and the uniform random playout.

use vstd::prelude::*;

use crate::board::{
    apply_chain, boards_set, legal_sow_seq, lemma_legal_seq_concat, lemma_row_phi_nonneg,
    lemma_seq_sum_nonneg, lemma_sowable_chain_legal, lemma_turn_chain_sowable,
    lemma_turn_list_chains, lemma_turn_list_nonempty, lemma_turn_list_props, turn_chain, turn_list,
    turn_outcomes, Board, BoardModel,
};
use crate::evaluator::Evaluator;
use crate::score::Score;
use crate::rng::rand_below;
use rand_pcg::Mcg128Xsl64;

verus! {

/// Play uniformly random completed turns from `board` until the game is
/// over, and return the finished board.  The result is reachable from the
/// start by legal play, and termination holds because every sow strictly
/// shrinks the (pits in play, row weight) pair.
pub fn random_down(random: &mut Mcg128Xsl64, board: &Board) -> (r: Board)
    requires
        board.wf(),
    ensures
        r.wf(),
        r@.finished(),
        r@.total() == board@.total(),
        r@.stealing == board@.stealing,
        exists|ps: Seq<usize>| legal_sow_seq(board@, ps) && apply_chain(board@, ps) == r@,
{
    let mut b = board.clone();
    let mut done = b.is_finished();
    let ghost mut trail: Seq<usize> = Seq::empty();
    while !done
        invariant
            b.wf(),
            done == b@.finished(),
            b@.total() == board@.total(),
            b@.stealing == board@.stealing,
            legal_sow_seq(board@, trail),
            apply_chain(board@, trail) == b@,
        decreases b@.pits_total(), b@.phi(),
    {
        let nexts = b.list_next();
        proof {
            lemma_turn_list_nonempty(b@);
            let first = crate::board::turn_list(b@)[0];
            assert(crate::board::turn_list(b@).contains(first));
            assert(crate::board::turn_outcomes(b@).contains(first));
            assert(crate::board::boards_set(nexts@).contains(first));
            assert(nexts@.len() > 0);
        }
        let idx = rand_below(random, nexts.len());
        let nb = nexts[idx].clone();
        proof {
            lemma_turn_list_props(b@);
            assert(crate::board::boards_set(nexts@).contains(nb@));
            assert(crate::board::turn_list(b@).contains(nb@));
            lemma_seq_sum_nonneg(nb@.seeds[0]);
            lemma_seq_sum_nonneg(nb@.seeds[1]);
            lemma_row_phi_nonneg(nb@.seeds[0]);
            lemma_row_phi_nonneg(nb@.seeds[1]);
            // record the turn that reached the chosen board
            lemma_turn_list_chains(b@);
            let ps = choose|ps: Seq<usize>| turn_chain(b@, ps, nb@);
            lemma_turn_chain_sowable(b@, ps, nb@);
            lemma_sowable_chain_legal(b@, ps);
            lemma_legal_seq_concat(board@, trail, ps);
            trail = trail + ps;
        }
        b = nb;
        done = b.is_finished();
    }
    proof {
        assert(legal_sow_seq(board@, trail) && apply_chain(board@, trail) == b@);
    }
    b
}

/// The larger of two scores under the score order.
pub open spec fn max2<S: Score>(a: S, b: S) -> S {
    if a.spec_le(b) {
        b
    } else {
        a
    }
}

/// Full-width negamax value of a board: at depth zero or on a finished board
/// the evaluator's own value, otherwise the best flipped value over every
/// board one completed turn away.
pub open spec fn nmax<E: Evaluator>(m: BoardModel, depth: nat) -> E::Score
    decreases depth, 0nat,
{
    if depth == 0 || m.finished() {
        E::spec_eval(m)
    } else {
        nmax_seq::<E>(turn_list(m), (depth - 1) as nat)
    }
}

/// Best flipped negamax value over a list of boards; the low sentinel when
/// the list is empty.
pub open spec fn nmax_seq<E: Evaluator>(l: Seq<BoardModel>, depth: nat) -> E::Score
    decreases depth, l.len() + 1,
{
    if l.len() == 0 {
        E::Score::spec_min()
    } else {
        max2(nmax::<E>(l[0], depth).spec_flip(), nmax_seq::<E>(l.drop_first(), depth))
    }
}

/// The score laws in quantified form, for kinds that claim them, together
/// with the unconditional fact that negation keeps values supported.
pub proof fn lemma_score_laws_auto<S: Score>()
    ensures
        forall|a: S| a.in_range() ==> (#[trigger] a.spec_flip()).in_range(),
        S::obeys_laws() ==> (S::spec_min().in_range() && S::spec_max().in_range()
            && S::spec_min() != S::spec_max()),
        S::obeys_laws() ==> forall|a: S, b: S|
            a.in_range() && b.in_range() ==> ((#[trigger] a.spec_le(b)) || b.spec_le(a)),
        S::obeys_laws() ==> forall|a: S, b: S|
            a.in_range() && b.in_range() && #[trigger] a.spec_le(b) && #[trigger] b.spec_le(a)
                ==> a == b,
        S::obeys_laws() ==> forall|a: S, b: S, c: S|
            a.in_range() && b.in_range() && c.in_range() && #[trigger] a.spec_le(b)
                && #[trigger] b.spec_le(c) ==> a.spec_le(c),
        S::obeys_laws() ==> forall|a: S|
            a.in_range() ==> (#[trigger] a.spec_flip()).spec_flip() == a,
        S::obeys_laws() ==> forall|a: S, b: S|
            a.in_range() && b.in_range() ==> ((#[trigger] a.spec_le(b))
                <==> b.spec_flip().spec_le(a.spec_flip())),
        S::obeys_laws() ==> forall|a: S|
            #[trigger] a.in_range() ==> (S::spec_min().spec_le(a) && a.spec_le(S::spec_max())),
{
    assert forall|a: S| a.in_range() implies (#[trigger] a.spec_flip()).in_range() by {
        S::lemma_flip_range(a);
    }
    S::lemma_sentinels();
    if S::obeys_laws() {
        assert forall|a: S, b: S|
            a.in_range() && b.in_range() implies ((#[trigger] a.spec_le(b)) || b.spec_le(a)) by {
            S::lemma_laws(a, b, a);
        }
        assert forall|a: S, b: S|
            a.in_range() && b.in_range() && #[trigger] a.spec_le(b) && #[trigger] b.spec_le(a)
            implies a == b by {
            S::lemma_laws(a, b, a);
        }
        assert forall|a: S, b: S, c: S|
            a.in_range() && b.in_range() && c.in_range() && #[trigger] a.spec_le(b)
                && #[trigger] b.spec_le(c) implies a.spec_le(c) by {
            S::lemma_laws(a, b, c);
        }
        assert forall|a: S| a.in_range() implies (#[trigger] a.spec_flip()).spec_flip() == a by {
            S::lemma_laws(a, a, a);
        }
        assert forall|a: S, b: S|
            a.in_range() && b.in_range() implies ((#[trigger] a.spec_le(b))
            <==> b.spec_flip().spec_le(a.spec_flip())) by {
            S::lemma_laws(a, b, a);
        }
        assert forall|a: S|
            #[trigger] a.in_range() implies (S::spec_min().spec_le(a) && a.spec_le(
            S::spec_max(),
        )) by {
            S::lemma_laws(a, a, a);
        }
    }
}

/// Negamax values of well-formed boards are supported and sit between the
/// sentinels.
pub proof fn lemma_nmax_bounds<E: Evaluator>(m: BoardModel, depth: nat)
    requires
        m.wf(),
        E::deterministic(),
        E::Score::obeys_laws(),
    ensures
        nmax::<E>(m, depth).in_range(),
        E::Score::spec_min().spec_le(nmax::<E>(m, depth)),
        nmax::<E>(m, depth).spec_le(E::Score::spec_max()),
    decreases depth, 0nat,
{
    if depth == 0 || m.finished() {
        E::lemma_eval_bounds(m);
        lemma_score_laws_auto::<E::Score>();
    } else {
        lemma_turn_list_props(m);
        let l = turn_list(m);
        assert(forall|i: int| 0 <= i < l.len() ==> (#[trigger] l[i]).wf()) by {
            assert forall|i: int| 0 <= i < l.len() implies (#[trigger] l[i]).wf() by {
                assert(l.contains(l[i]));
            }
        }
        lemma_nmax_seq_bounds::<E>(l, (depth - 1) as nat);
    }
}

proof fn lemma_nmax_seq_bounds<E: Evaluator>(l: Seq<BoardModel>, depth: nat)
    requires
        forall|i: int| 0 <= i < l.len() ==> (#[trigger] l[i]).wf(),
        E::deterministic(),
        E::Score::obeys_laws(),
    ensures
        nmax_seq::<E>(l, depth).in_range(),
        E::Score::spec_min().spec_le(nmax_seq::<E>(l, depth)),
        nmax_seq::<E>(l, depth).spec_le(E::Score::spec_max()),
    decreases depth, l.len() + 1,
{
    lemma_score_laws_auto::<E::Score>();
    if l.len() == 0 {
    } else {
        lemma_nmax_bounds::<E>(l[0], depth);
        assert(forall|i: int|
            0 <= i < l.drop_first().len() ==> (#[trigger] l.drop_first()[i]).wf());
        lemma_nmax_seq_bounds::<E>(l.drop_first(), depth);
    }
}

/// Every listed board's flipped value is dominated by the list maximum.
pub proof fn lemma_nmax_seq_ub<E: Evaluator>(l: Seq<BoardModel>, depth: nat, j: int)
    requires
        forall|i: int| 0 <= i < l.len() ==> (#[trigger] l[i]).wf(),
        E::deterministic(),
        E::Score::obeys_laws(),
        0 <= j < l.len(),
    ensures
        nmax::<E>(l[j], depth).spec_flip().spec_le(nmax_seq::<E>(l, depth)),
    decreases l.len(),
{
    lemma_score_laws_auto::<E::Score>();
    lemma_nmax_bounds::<E>(l[0], depth);
    lemma_nmax_bounds::<E>(l[j], depth);
    assert(forall|i: int| 0 <= i < l.drop_first().len() ==> (#[trigger] l.drop_first()[i]).wf());
    lemma_nmax_seq_bounds::<E>(l.drop_first(), depth);
    if j == 0 {
    } else {
        lemma_nmax_seq_ub::<E>(l.drop_first(), depth, j - 1);
        assert(l.drop_first()[j - 1] == l[j]);
    }
}

/// A bound above every listed flipped value, and above the low sentinel,
/// bounds the list maximum.
pub proof fn lemma_nmax_seq_le_bound<E: Evaluator>(l: Seq<BoardModel>, depth: nat, bound: E::Score)
    requires
        forall|i: int| 0 <= i < l.len() ==> (#[trigger] l[i]).wf(),
        E::deterministic(),
        E::Score::obeys_laws(),
        bound.in_range(),
        E::Score::spec_min().spec_le(bound),
        forall|j: int|
            0 <= j < l.len() ==> nmax::<E>(#[trigger] l[j], depth).spec_flip().spec_le(bound),
    ensures
        nmax_seq::<E>(l, depth).spec_le(bound),
    decreases l.len(),
{
    lemma_score_laws_auto::<E::Score>();
    if l.len() == 0 {
    } else {
        lemma_nmax_bounds::<E>(l[0], depth);
        assert(forall|i: int|
            0 <= i < l.drop_first().len() ==> (#[trigger] l.drop_first()[i]).wf());
        assert forall|j: int|
            0 <= j < l.drop_first().len() implies nmax::<E>(
            #[trigger] l.drop_first()[j],
            depth,
        ).spec_flip().spec_le(bound) by {
            assert(l.drop_first()[j] == l[j + 1]);
        }
        lemma_nmax_seq_le_bound::<E>(l.drop_first(), depth, bound);
        lemma_nmax_seq_bounds::<E>(l.drop_first(), depth);
        assert(nmax::<E>(l[0], depth).spec_flip().spec_le(bound));
    }
}

/// Does the pruning theorem apply to this search call?
pub open spec fn exact_window<E: Evaluator>(alpha: E::Score, beta: E::Score) -> bool {
    &&& E::deterministic()
    &&& E::Score::obeys_laws()
    &&& alpha.spec_le(beta)
    &&& alpha != beta
}

/// Depth-bounded negamax with fail-hard alpha-beta pruning.  For a
/// deterministic evaluator over a lawful score kind, pruning changes nothing:
/// a result inside the window equals the full-width negamax value, a result
/// at or below `alpha` proves the value is at most `alpha`, and a result at
/// or above `beta` proves it is at least `beta`.  With the full window the
/// result is exactly the full-width value.
#[verifier::loop_isolation(false)]
#[verifier::rlimit(100)]
pub fn ab_search<E: Evaluator>(
    board: Board,
    eval: &mut E,
    depth: usize,
    alpha: E::Score,
    beta: E::Score,
) -> (r: E::Score)
    requires
        board.wf(),
        old(eval).inv(),
        alpha.in_range(),
        beta.in_range(),
    ensures
        final(eval).inv(),
        r.in_range(),
        exact_window::<E>(alpha, beta) ==> {
            let v = nmax::<E>(board@, depth as nat);
            &&& (r.spec_le(alpha) ==> v.spec_le(alpha))
            &&& (beta.spec_le(r) ==> beta.spec_le(v))
            &&& ((!r.spec_le(alpha) && !beta.spec_le(r)) ==> r == v)
            &&& (alpha.spec_le(r) || r == v)
            &&& (r.spec_le(alpha) ==> (r == alpha || r == v))
            &&& E::Score::spec_min().spec_le(r)
            &&& r.spec_le(E::Score::spec_max())
            &&& ((alpha == E::Score::spec_min() && beta == E::Score::spec_max()) ==> r == v)
        },
    decreases depth,
{
    if depth == 0 || board.is_finished() {
        let r = eval.eval(&board);
        proof {
            if exact_window::<E>(alpha, beta) {
                lemma_score_laws_auto::<E::Score>();
            }
        }
        return r;
    }
    let list = board.list_next();
    let ghost m = board@;
    let ghost d1 = (depth - 1) as nat;
    proof {
        if exact_window::<E>(alpha, beta) {
            lemma_score_laws_auto::<E::Score>();
            lemma_turn_list_props(m);
            assert forall|i: int| 0 <= i < list@.len() implies nmax::<E>(
                (#[trigger] list@[i])@,
                d1,
            ).spec_flip().in_range() by {
                assert(boards_set(list@).contains(list@[i]@));
                assert(turn_list(m).contains(list@[i]@));
                lemma_nmax_bounds::<E>(list@[i]@, d1);
            }
        }
    }
    let mut cur = alpha;
    let mut i: usize = 0;
    let mut pruned = false;
    while i < list.len() && !pruned
        invariant
            eval.inv(),
            cur.in_range(),
            i <= list@.len(),
            exact_window::<E>(alpha, beta) ==> {
                &&& alpha.spec_le(cur)
                &&& (!pruned ==> !beta.spec_le(cur))
                &&& (!pruned ==> forall|j: int|
                    0 <= j < i ==> nmax::<E>((#[trigger] list@[j])@, d1).spec_flip().spec_le(cur))
                &&& (!pruned ==> (cur == alpha || exists|j: int|
                    0 <= j < i && cur == nmax::<E>((#[trigger] list@[j])@, d1).spec_flip()))
                &&& (pruned ==> (beta.spec_le(cur) && exists|j: int|
                    0 <= j < i && beta.spec_le(nmax::<E>((#[trigger] list@[j])@, d1).spec_flip())))
            },
        decreases list@.len() - i,
    {
        let child = list[i].clone();
        proof {
            assert(list@[i as int].wf());
            E::Score::lemma_flip_range(beta);
            E::Score::lemma_flip_range(cur);
            if exact_window::<E>(alpha, beta) {
                lemma_score_laws_auto::<E::Score>();
            }
        }
        let s = ab_search(child, eval, depth - 1, beta.flip(), cur.flip());
        proof {
            E::Score::lemma_flip_range(s);
        }
        let a = s.flip();
        let ghost cur0 = cur;
        let ghost u = nmax::<E>(list@[i as int]@, d1).spec_flip();
        proof {
            if exact_window::<E>(alpha, beta) {
                lemma_score_laws_auto::<E::Score>();
                assert(boards_set(list@).contains(list@[i as int]@));
                assert(turn_list(m).contains(list@[i as int]@));
                lemma_nmax_bounds::<E>(list@[i as int]@, d1);
                let vc = nmax::<E>(list@[i as int]@, d1);
                // the child call ran inside the flipped window
                assert(cur0.spec_le(beta) && !beta.spec_le(cur0));
                assert(beta.spec_flip().spec_le(cur0.spec_flip()));
                assert(beta.spec_flip() != cur0.spec_flip());
                assert(exact_window::<E>(beta.spec_flip(), cur0.spec_flip()));
                // translate the child's fail-hard contract to flipped values
                assert(s.spec_le(beta.spec_flip()) <==> beta.spec_le(a));
                assert(cur0.spec_flip().spec_le(s) <==> a.spec_le(cur0));
                assert(vc.spec_le(beta.spec_flip()) <==> beta.spec_le(u));
                assert(cur0.spec_flip().spec_le(vc) <==> u.spec_le(cur0));
                assert(beta.spec_le(a) ==> beta.spec_le(u));
                assert(a.spec_le(cur0) ==> u.spec_le(cur0));
                assert((!beta.spec_le(a) && !a.spec_le(cur0)) ==> a == u);
            }
        }
        if !a.le(&cur) {
            cur = a;
        }
        if beta.le(&cur) {
            pruned = true;
        }
        proof {
            if exact_window::<E>(alpha, beta) {
                lemma_score_laws_auto::<E::Score>();
                if !pruned {
                    assert forall|j: int| 0 <= j <= i implies nmax::<E>(
                        (#[trigger] list@[j])@,
                        d1,
                    ).spec_flip().spec_le(cur) by {
                        if j < i {
                            assert(nmax::<E>(list@[j]@, d1).spec_flip().spec_le(cur0));
                        } else {
                            if cur == cur0 {
                                // the candidate did not improve: a <= cur0
                                assert(a.spec_le(cur0));
                                assert(u.spec_le(cur0));
                            } else {
                                // improved to a, which lies inside the window
                                assert(cur == a && !a.spec_le(cur0) && !beta.spec_le(a));
                                assert(a == u);
                            }
                        }
                    }
                    if cur != cur0 {
                        assert(cur == a && !a.spec_le(cur0) && !beta.spec_le(a));
                        assert(a == u);
                        assert(exists|j: int|
                            0 <= j < i + 1 && cur == nmax::<E>(
                                (#[trigger] list@[j])@,
                                d1,
                            ).spec_flip());
                    }
                } else {
                    if !beta.spec_le(cur0) {
                        // pruning was triggered by this candidate
                        assert(cur == a && beta.spec_le(a));
                        assert(beta.spec_le(u));
                        assert(exists|j: int|
                            0 <= j < i + 1 && beta.spec_le(
                                nmax::<E>((#[trigger] list@[j])@, d1).spec_flip(),
                            ));
                    } else {
                        // cur0 already reached beta, so cur0 came from an
                        // earlier improving candidate
                        assert(cur == cur0);
                        assert(cur0 != alpha);
                        let j0 = choose|j: int|
                            0 <= j < i && cur0 == nmax::<E>((#[trigger] list@[j])@, d1).spec_flip();
                        assert(beta.spec_le(nmax::<E>(list@[j0]@, d1).spec_flip()));
                    }
                }
            }
        }
        i += 1;
    }
    proof {
        if exact_window::<E>(alpha, beta) {
            lemma_score_laws_auto::<E::Score>();
            lemma_turn_list_props(m);
            let tl = turn_list(m);
            let v = nmax::<E>(m, depth as nat);
            assert(v == nmax_seq::<E>(tl, d1));
            assert forall|k: int| 0 <= k < tl.len() implies (#[trigger] tl[k]).wf() by {
                assert(tl.contains(tl[k]));
            }
            lemma_nmax_seq_bounds::<E>(tl, d1);
            if pruned {
                // some candidate's value reaches beta, hence so does the
                // full-width value
                let j0 = choose|j: int|
                    0 <= j < i && beta.spec_le(nmax::<E>((#[trigger] list@[j])@, d1).spec_flip());
                assert(boards_set(list@).contains(list@[j0]@));
                assert(tl.contains(list@[j0]@));
                let k0 = choose|k: int| 0 <= k < tl.len() && tl[k] == list@[j0]@;
                lemma_nmax_seq_ub::<E>(tl, d1, k0);
                lemma_nmax_bounds::<E>(tl[k0], d1);
                assert(beta.spec_le(v));
                assert(beta.spec_le(cur));
                // a result at beta or above cannot sit at or below alpha
                assert(!cur.spec_le(alpha));
            } else {
                // the whole list was examined without pruning
                assert(i == list@.len());
                if cur.spec_le(alpha) {
                    assert(cur == alpha);
                }
                if cur == alpha || cur.spec_le(alpha) {
                    // no candidate improved on alpha: every value is at most
                    // alpha, hence so is the full-width value
                    assert forall|k: int| 0 <= k < tl.len() implies nmax::<E>(
                        #[trigger] tl[k],
                        d1,
                    ).spec_flip().spec_le(alpha) by {
                        assert(tl.contains(tl[k]));
                        assert(turn_outcomes(m).contains(tl[k]));
                        assert(boards_set(list@).contains(tl[k]));
                        let j = choose|j: int|
                            0 <= j < list@.len() && (#[trigger] list@[j])@ == tl[k];
                        assert(nmax::<E>(list@[j]@, d1).spec_flip().spec_le(cur));
                    }
                    lemma_nmax_seq_le_bound::<E>(tl, d1, alpha);
                } else {
                    // cur is the exact value of its best candidate: it is a
                    // member value and an upper bound of all member values
                    let jw = choose|j: int|
                        0 <= j < i && cur == nmax::<E>((#[trigger] list@[j])@, d1).spec_flip();
                    assert(boards_set(list@).contains(list@[jw]@));
                    assert(tl.contains(list@[jw]@));
                    let kw = choose|k: int| 0 <= k < tl.len() && tl[k] == list@[jw]@;
                    lemma_nmax_seq_ub::<E>(tl, d1, kw);
                    assert(cur.spec_le(v));
                    assert forall|k: int| 0 <= k < tl.len() implies nmax::<E>(
                        #[trigger] tl[k],
                        d1,
                    ).spec_flip().spec_le(cur) by {
                        assert(tl.contains(tl[k]));
                        assert(boards_set(list@).contains(tl[k]));
                        let j = choose|j: int|
                            0 <= j < list@.len() && (#[trigger] list@[j])@ == tl[k];
                        assert(nmax::<E>(list@[j]@, d1).spec_flip().spec_le(cur));
                    }
                    lemma_nmax_seq_le_bound::<E>(tl, d1, cur);
                    assert(v.spec_le(cur));
                    assert(cur == v);
                }
            }
        }
    }
    cur
}

} // verus!
