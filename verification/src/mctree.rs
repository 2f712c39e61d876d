//! Monte-Carlo tree search: an iterative best-first search over the game
//! tree using random playouts, with final move selection by visit count.

use vstd::prelude::*;

use crate::board::{
    boards_set, clone_positions, entries_set, lemma_turn_chain_sowable, lemma_turn_list_nonempty,
    lemma_turn_list_props,
    turn_chain, turn_outcomes, Board,
};
use crate::utils::random_down;
use crate::Searcher;
use rand_pcg::Mcg128Xsl64;

verus! {

/// Upper bound on the simulations one move choice may run, so visit counters
/// cannot overflow.
pub const MAX_SIMULATIONS: usize = 4294967294;

/// One node of the search tree: the board it stands for, how often it was
/// visited, how often those visits ended in a win for the side that just
/// moved, a cached verdict once the position is known to be terminal, and
/// one child per reachable next board (created lazily).  Each node owns its
/// children outright; the tree has no sharing and no back references.
#[derive(Debug)]
pub struct Node {
    pub visited_count: u32,
    pub win_count: u32,
    pub board: Board,
    pub is_win: Option<bool>,
    pub children: Vec<Node>,
}

/// Structural soundness of a search-tree node: the board is well formed, no
/// node records more wins than visits, children are never visited more often
/// than their parent, every child stands for a board one completed turn
/// away, and a cached verdict is truthful: it is only ever set on a finished
/// board and records whether the side to move failed to come out ahead.
pub open spec fn node_wf(n: Node) -> bool
    decreases n,
{
    &&& n.board.wf()
    &&& n.win_count <= n.visited_count
    &&& (n.is_win matches Some(w) ==> (n.board@.finished() && (w == (n.board@.rel_score()
        <= 0))))
    &&& forall|i: int|
        0 <= i < n.children@.len() ==> (#[trigger] n.children@[i]).visited_count
            <= n.visited_count
    &&& forall|i: int|
        0 <= i < n.children@.len() ==> turn_outcomes(n.board@).contains(
            (#[trigger] n.children@[i]).board@,
        )
    &&& forall|i: int| 0 <= i < n.children@.len() ==> node_wf(#[trigger] n.children@[i])
}

impl Node {
    /// A fresh, never-visited node.
    pub fn new(board: Board) -> (r: Node)
        requires
            board.wf(),
        ensures
            node_wf(r),
            r.board@ == board@,
            r.visited_count == 0,
            r.win_count == 0,
            r.is_win is None,
            r.children@.len() == 0,
    {
        Node { visited_count: 0, win_count: 0, board, is_win: None, children: Vec::new() }
    }
}

/// Picks which child of a node to descend into, given the children's win
/// counts, their visit counts, and the parent's total visit count.  This is
/// the exploration heuristic (such as an upper-confidence rule); any index
/// may be returned, and out-of-range answers fall back to the first child.
pub trait ChildPolicy {
    fn pick(&mut self, wins: &Vec<u32>, visits: &Vec<u32>, total: u32) -> usize;
}

/// Exploitation-only child policy: picks the child with the highest win
/// rate, comparing the rates by cross-multiplication so no division or
/// rounding is involved.  Never-visited children are taken by the searcher
/// before the policy is asked.
#[derive(Debug)]
pub struct RatioPolicy;

impl RatioPolicy {
    pub fn new() -> RatioPolicy {
        RatioPolicy
    }
}

impl ChildPolicy for RatioPolicy {
    /// The answer maximises the win rate over the common prefix of the two
    /// lists, compared by cross products: for every index `j` there,
    /// `wins[j] * visits[r] <= wins[r] * visits[j]`.  Among cross-product
    /// ties the earliest index wins.
    fn pick(&mut self, wins: &Vec<u32>, visits: &Vec<u32>, _total: u32) -> (r: usize)
        ensures
            ({
                let n = if wins@.len() < visits@.len() {
                    wins@.len() as int
                } else {
                    visits@.len() as int
                };
                &&& (n == 0 ==> r == 0)
                &&& (n > 0 ==> r < n)
                &&& (n > 0 ==> forall|j: int|
                    0 <= j < n ==> wins@[j] * visits@[r as int] <= wins@[r as int] * visits@[j])
            }),
    {
        let n = if wins.len() < visits.len() {
            wins.len()
        } else {
            visits.len()
        };
        if n == 0 {
            return 0;
        }
        let mut best: usize = 0;
        let mut i: usize = 1;
        while i < n
            invariant
                n <= wins@.len(),
                n <= visits@.len(),
                1 <= i <= n,
                best < i,
                forall|j: int|
                    0 <= j < i ==> wins@[j] * visits@[best as int] <= wins@[best as int]
                        * visits@[j],
            decreases n - i,
        {
            proof {
                assert((wins@[i as int] as u64) * (visits@[best as int] as u64) <= u64::MAX)
                    by (nonlinear_arith)
                    requires
                        wins@[i as int] <= u32::MAX && visits@[best as int] <= u32::MAX,
                ;
                assert((wins@[best as int] as u64) * (visits@[i as int] as u64) <= u64::MAX)
                    by (nonlinear_arith)
                    requires
                        wins@[best as int] <= u32::MAX && visits@[i as int] <= u32::MAX,
                ;
            }
            // wins[i] / visits[i] > wins[best] / visits[best]
            let lhs = (wins[i] as u64) * (visits[best] as u64);
            let rhs = (wins[best] as u64) * (visits[i] as u64);
            let ghost best0 = best;
            if lhs > rhs {
                best = i;
            }
            proof {
                assert forall|j: int|
                    0 <= j < i + 1 implies wins@[j] * visits@[best as int] <= wins@[best as int]
                    * visits@[j] by {
                    cross_products_order(
                        wins@[j] as int,
                        visits@[j] as int,
                        wins@[best0 as int] as int,
                        visits@[best0 as int] as int,
                        wins@[best as int] as int,
                        visits@[best as int] as int,
                    );
                }
            }
            i += 1;
        }
        best
    }
}

/// Comparing ratios by cross products is transitive on non-negative counts:
/// a bound against the old best carries to a strictly better new best.
proof fn cross_products_order(wj: int, vj: int, w0: int, v0: int, w1: int, v1: int)
    requires
        wj >= 0 && vj >= 0 && w0 >= 0 && v0 >= 0 && w1 >= 0 && v1 >= 0,
    ensures
        (wj * v0 <= w0 * vj && w0 * v1 < w1 * v0) ==> wj * v1 <= w1 * vj,
{
    if wj * v0 <= w0 * vj && w0 * v1 < w1 * v0 {
        assert(v0 >= 1) by (nonlinear_arith)
            requires
                w0 >= 0 && v1 >= 0 && v0 >= 0 && w0 * v1 < w1 * v0,
        ;
        assert(wj * v0 * v1 <= w0 * vj * v1) by (nonlinear_arith)
            requires
                wj * v0 <= w0 * vj && v1 >= 0,
        ;
        assert(w0 * vj * v1 <= w1 * v0 * vj) by (nonlinear_arith)
            requires
                w0 * v1 <= w1 * v0 && vj >= 0,
        ;
        assert(wj * v1 <= w1 * vj) by (nonlinear_arith)
            requires
                wj * v0 * v1 <= w1 * v0 * vj && v0 >= 1 && wj >= 0 && vj >= 0 && w1 >= 0 && v1
                    >= 0,
        ;
    }
}

/// Robust-child rule: the index of the most visited node in a list of
/// children; ties keep the earliest.  Visit counts are more stable than win
/// rates under noisy small samples, so the final move choice goes by them.
pub fn most_visited(children: &Vec<Node>) -> (i: usize)
    requires
        children@.len() > 0,
    ensures
        i < children@.len(),
        forall|j: int|
            0 <= j < children@.len() ==> (#[trigger] children@[j]).visited_count <= children@[
                i as int].visited_count,
        forall|j: int|
            0 <= j < i ==> (#[trigger] children@[j]).visited_count < children@[
                i as int].visited_count,
{
    let mut best_i: usize = 0;
    let mut j: usize = 1;
    while j < children.len()
        invariant
            1 <= j <= children@.len(),
            best_i < j,
            forall|k: int|
                0 <= k < j ==> (#[trigger] children@[k]).visited_count <= children@[
                    best_i as int].visited_count,
            forall|k: int|
                0 <= k < best_i ==> (#[trigger] children@[k]).visited_count < children@[
                    best_i as int].visited_count,
        decreases children@.len() - j,
    {
        if children[j].visited_count > children[best_i].visited_count {
            best_i = j;
        }
        j += 1;
    }
    best_i
}

/// Monte-Carlo tree searcher: runs a fixed budget of simulations from the
/// current position, descending by the child policy, sampling rarely-visited
/// leaves by uniform random playout, expanding a leaf once it has been
/// visited more than the expansion threshold, and finally playing the most
/// visited root child (robust-child selection).
pub struct McTreeSearcher<P> {
    rng: Mcg128Xsl64,
    policy: P,
    simulations: usize,
    expansion_threshold: u32,
}

impl<P: ChildPolicy> McTreeSearcher<P> {
    /// The simulation budget one move choice runs.
    pub closed spec fn spec_simulations(&self) -> int {
        self.simulations as int
    }

    /// Visits before a leaf is expanded into children.
    pub closed spec fn spec_threshold(&self) -> int {
        self.expansion_threshold as int
    }

    pub fn new(rng: Mcg128Xsl64, policy: P, simulations: usize, expansion_threshold: u32) -> (r:
        McTreeSearcher<P>)
        requires
            simulations <= MAX_SIMULATIONS,
        ensures
            r.inv(),
            r.spec_simulations() == simulations,
            r.spec_threshold() == expansion_threshold,
    {
        McTreeSearcher { rng, policy, simulations, expansion_threshold }
    }

    /// One simulation from `node`: descend the tree, sample or expand at the
    /// frontier, and report whether the walk ended in a win for the side
    /// that moved into `node`.  Win and visit counts are updated on the way
    /// back up; the node's board and the boards of existing children never
    /// change, and existing children are never thrown away.  Public so a
    /// driver that budgets by wall clock rather than by simulation count can
    /// hold the tree itself and run one simulation at a time.
    pub fn selection(&mut self, node: &mut Node) -> (win: bool)
        requires
            node_wf(*old(node)),
            old(node).visited_count < u32::MAX,
        ensures
            final(self).spec_simulations() == old(self).spec_simulations(),
            final(self).spec_threshold() == old(self).spec_threshold(),
            node_wf(*final(node)),
            final(node).board@ == old(node).board@,
            final(node).visited_count == old(node).visited_count + 1,
            final(node).win_count == old(node).win_count + (if win {
                1int
            } else {
                0int
            }),
            old(node).children@.len() > 0 ==> final(node).children@.len() == old(
                node,
            ).children@.len(),
            old(node).children@.len() > 0 ==> forall|i: int|
                0 <= i < final(node).children@.len() ==> (#[trigger] final(node).children@[i]).board@
                    == old(node).children@[i].board@,
        decreases old(node).board@.pits_total(), old(node).board@.phi(),
    {
        node.visited_count = node.visited_count + 1;
        if let Some(win) = node.is_win {
            if win {
                node.win_count = node.win_count + 1;
            }
            return win;
        }
        if node.children.len() == 0 {
            if node.board.is_finished() {
                // terminal: a non-positive score for the side to move counts
                // as a win (draws are folded into wins by policy)
                let win = node.board.score() <= 0;
                node.is_win = Some(win);
                if win {
                    node.win_count = node.win_count + 1;
                }
                return win;
            }
            if node.visited_count <= self.expansion_threshold {
                // rarely visited: one random playout, no expansion
                let finished = random_down(&mut self.rng, &node.board);
                let win = if finished.side() != node.board.side() {
                    finished.score() >= 0
                } else {
                    finished.score() <= 0
                };
                if win {
                    node.win_count = node.win_count + 1;
                }
                return win;
            }
            // visited often enough: materialise one child per legal turn
            let nexts = node.board.list_next();
            let mut k: usize = 0;
            while k < nexts.len()
                invariant
                    node.visited_count == old(node).visited_count + 1,
                    node.win_count == old(node).win_count,
                    node.is_win is None,
                    node.board@ == old(node).board@,
                    node.board.wf(),
                    node.win_count <= node.visited_count,
                    k <= nexts@.len(),
                    node.children@.len() == k,
                    forall|i: int|
                        0 <= i < k ==> (#[trigger] node.children@[i]).visited_count == 0,
                    forall|i: int|
                        0 <= i < k ==> turn_outcomes(node.board@).contains(
                            (#[trigger] node.children@[i]).board@,
                        ),
                    forall|i: int| 0 <= i < k ==> node_wf(#[trigger] node.children@[i]),
                    forall|i: int| 0 <= i < nexts@.len() ==> (#[trigger] nexts@[i]).wf(),
                    boards_set(nexts@) == turn_outcomes(node.board@),
                decreases nexts@.len() - k,
            {
                proof {
                    assert(boards_set(nexts@).contains(nexts@[k as int]@));
                }
                node.children.push(Node::new(nexts[k].clone()));
                k += 1;
            }
            proof {
                // the board is not finished, so the expansion is non-empty
                lemma_turn_list_nonempty(node.board@);
                let first = crate::board::turn_list(node.board@)[0];
                assert(crate::board::turn_list(node.board@).contains(first));
                assert(turn_outcomes(node.board@).contains(first));
                assert(boards_set(nexts@).contains(first));
                assert(nexts@.len() > 0);
            }
        }
        // both paths meet here with at least one well-formed child
        let ghost pre = node.children@;
        proof {
            assert forall|i: int|
                0 <= i < pre.len() implies (node_wf(#[trigger] pre[i]) && turn_outcomes(
                node.board@,
            ).contains(pre[i].board@) && pre[i].visited_count <= old(node).visited_count) by {
                if old(node).children@.len() > 0 {
                    assert(pre[i] == old(node).children@[i]);
                }
            }
        }
        // gather the children's statistics for the policy
        let mut wins: Vec<u32> = Vec::new();
        let mut visits: Vec<u32> = Vec::new();
        let mut k: usize = 0;
        while k < node.children.len()
            invariant
                k <= node.children@.len(),
            decreases node.children@.len() - k,
        {
            wins.push(node.children[k].win_count);
            visits.push(node.children[k].visited_count);
            k += 1;
        }
        // never-visited children come first; otherwise ask the policy
        let mut idx: usize = 0;
        let mut fresh = false;
        let mut k2: usize = 0;
        while k2 < node.children.len() && !fresh
            invariant
                k2 <= node.children@.len(),
                fresh ==> idx < node.children@.len(),
                !fresh ==> idx == 0,
            decreases node.children@.len() - k2, (if fresh {
                0int
            } else {
                1int
            }),
        {
            if node.children[k2].visited_count == 0 {
                idx = k2;
                fresh = true;
            } else {
                k2 += 1;
            }
        }
        if !fresh {
            idx = self.policy.pick(&wins, &visits, node.visited_count);
            if idx >= node.children.len() {
                idx = 0;
            }
        }
        // descend; a win for the child is a loss for this node
        let mut child = node.children.remove(idx);
        proof {
            assert(child == pre[idx as int]);
            lemma_turn_list_props(node.board@);
            assert(crate::board::turn_list(node.board@).contains(child.board@));
            crate::board::lemma_seq_sum_nonneg(child.board@.seeds[0]);
            crate::board::lemma_seq_sum_nonneg(child.board@.seeds[1]);
            crate::board::lemma_row_phi_nonneg(child.board@.seeds[0]);
            crate::board::lemma_row_phi_nonneg(child.board@.seeds[1]);
        }
        let child_win = self.selection(&mut child);
        let ghost cg = child;
        node.children.insert(idx, child);
        proof {
            assert(node.children@ =~= pre.update(idx as int, cg));
        }
        let win = !child_win;
        if win {
            node.win_count = node.win_count + 1;
        }
        proof {
            assert forall|i: int|
                0 <= i < node.children@.len() implies ((#[trigger] node.children@[i]).board@
                == pre[i].board@ && node_wf(node.children@[i]) && node.children@[i].visited_count
                <= node.visited_count && turn_outcomes(node.board@).contains(
                node.children@[i].board@,
            )) by {
                if i != idx {
                    assert(node.children@[i] == pre[i]);
                }
            }
            if old(node).children@.len() > 0 {
                assert forall|i: int|
                    0 <= i < node.children@.len() implies (#[trigger] node.children@[i]).board@
                    == old(node).children@[i].board@ by {
                    assert(pre[i] == old(node).children@[i]);
                }
            }
        }
        win
    }
}

impl<P: ChildPolicy> Searcher for McTreeSearcher<P> {
    closed spec fn inv(&self) -> bool {
        self.simulations <= MAX_SIMULATIONS
    }

    /// Runs the simulation budget from the given position and plays the move
    /// chain of the most visited root child (`most_visited`); besides the
    /// trait's guarantee, the answer is a complete turn.
    #[verifier::loop_isolation(false)]
    fn sow(&mut self, board: &Board) -> (r: Vec<usize>)
        ensures
            exists|b: crate::board::BoardModel| #[trigger] turn_chain(board@, r@, b),
    {
        let ghost m = board@;
        let entries = board.list_next_with_pos();
        proof {
            lemma_turn_list_nonempty(m);
            let first = crate::board::turn_list(m)[0];
            assert(crate::board::turn_list(m).contains(first));
            assert(turn_outcomes(m).contains(first));
            assert(entries_set(entries@).contains(first));
            assert(entries@.len() > 0);
        }
        let mut root = Node::new(board.clone());
        let mut k: usize = 0;
        while k < entries.len()
            invariant
                k <= entries@.len(),
                root.board@ == m,
                root.visited_count == 0,
                root.win_count == 0,
                root.is_win is None,
                root.board.wf(),
                root.children@.len() == k,
                forall|i: int| 0 <= i < k ==> (#[trigger] root.children@[i]).visited_count == 0,
                forall|i: int|
                    0 <= i < k ==> (#[trigger] root.children@[i]).board@ == entries@[i].0@,
                forall|i: int|
                    0 <= i < k ==> turn_outcomes(m).contains(
                        (#[trigger] root.children@[i]).board@,
                    ),
                forall|i: int| 0 <= i < k ==> node_wf(#[trigger] root.children@[i]),
            decreases entries@.len() - k,
        {
            proof {
                assert(entries@[k as int].0.wf());
                crate::board::lemma_entries_set_contains(entries@, k as int);
            }
            root.children.push(Node::new(entries[k].0.clone()));
            k += 1;
        }
        let budget = self.simulations;
        let mut t: usize = 0;
        while t < budget
            invariant
                self.inv(),
                budget <= MAX_SIMULATIONS,
                t <= budget,
                node_wf(root),
                root.board@ == m,
                root.visited_count == t,
                root.children@.len() == entries@.len(),
                forall|i: int|
                    0 <= i < root.children@.len() ==> (#[trigger] root.children@[i]).board@
                        == entries@[i].0@,
            decreases budget - t,
        {
            let _ = self.selection(&mut root);
            t += 1;
        }
        let best_i = most_visited(&root.children);
        let r = clone_positions(&entries[best_i].1);
        proof {
            assert(turn_chain(m, r@, entries@[best_i as int].0@));
            lemma_turn_chain_sowable(m, r@, entries@[best_i as int].0@);
        }
        r
    }
}

} // verus!
