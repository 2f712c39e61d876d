use mancala_rust::{
    ab_search, random_down, Board, DepthSearcher, Evaluator, Game, GreedySearcher, McTreeEvaluator,
    McTreeSearcher, RandomSearcher, RatioPolicy, Score, ScoreDiffEvaluator, Searcher, Side,
    WinRateScore,
};
use rand_pcg::Mcg128Xsl64;

#[test]
fn smoke_ab_search_diff() {
    let mut eval = ScoreDiffEvaluator::new();
    ab_search(
        Board::new(true),
        &mut eval,
        5,
        <i32 as Score>::min_value(),
        <i32 as Score>::max_value(),
    );
}

#[test]
fn smoke_ab_search_mc() {
    let mut eval = McTreeEvaluator::new(Mcg128Xsl64::new(1), 10);
    ab_search(
        Board::new(true),
        &mut eval,
        2,
        <WinRateScore as Score>::min_value(),
        <WinRateScore as Score>::max_value(),
    );
}

#[test]
fn smoke_random_down() {
    let mut random = Mcg128Xsl64::new(1);
    let board = random_down(&mut random, &Board::new(false));
    assert!(board.is_finished());
}

/// Full-width negamax without any pruning, for comparison.
fn full_width(board: &Board, depth: usize) -> i32 {
    if depth == 0 || board.is_finished() {
        return board.last_score() as i32;
    }
    let mut best = i32::MIN + 1;
    for next in board.list_next() {
        let s = -full_width(&next, depth - 1);
        if s > best {
            best = s;
        }
    }
    best
}

#[test]
fn pruned_search_matches_full_width() {
    for stealing in [false, true] {
        let mut boards = vec![Board::new(stealing)];
        let mut b1 = Board::new(stealing);
        b1.sow(2);
        b1.sow(4);
        boards.push(b1);
        let mut b2 = Board::new(stealing);
        b2.sow(1);
        boards.push(b2);
        for board in boards {
            for depth in 0..4 {
                let mut eval = ScoreDiffEvaluator::new();
                let pruned = ab_search(
                    board.clone(),
                    &mut eval,
                    depth,
                    <i32 as Score>::min_value(),
                    <i32 as Score>::max_value(),
                );
                assert_eq!(pruned, full_width(&board, depth));
            }
        }
    }
}

fn run_game<A: Searcher, B: Searcher>(mut game: Game<A, B>) -> (u8, u8) {
    while !game.board().is_finished() {
        game.proceed();
    }
    game.board().last_scores()
}

#[test]
fn depth_searcher_finishes_a_game() {
    let dfs = DepthSearcher::new(ScoreDiffEvaluator::new(), 3);
    let random = RandomSearcher::new(Mcg128Xsl64::new(7));
    let (a, b) = run_game(Game::new(true, dfs, random));
    assert_eq!(a as u32 + b as u32, 48);
}

#[test]
fn greedy_searcher_finishes_a_game() {
    for stealing in [false, true] {
        let greedy = GreedySearcher::new(stealing, Mcg128Xsl64::new(11));
        let random = RandomSearcher::new(Mcg128Xsl64::new(13));
        let (a, b) = run_game(Game::new(stealing, greedy, random));
        assert_eq!(a as u32 + b as u32, 48);
    }
}

#[test]
fn mctree_searcher_finishes_a_game() {
    let mcts = McTreeSearcher::new(Mcg128Xsl64::new(17), RatioPolicy::new(), 200, 2);
    let random = RandomSearcher::new(Mcg128Xsl64::new(19));
    let (a, b) = run_game(Game::new(true, mcts, random));
    assert_eq!(a as u32 + b as u32, 48);
}

#[test]
fn searcher_moves_are_legal() {
    let mut random = RandomSearcher::new(Mcg128Xsl64::new(23));
    let mut board = Board::new(true);
    for _ in 0..10 {
        if board.is_finished() {
            break;
        }
        let moves = random.sow(&board);
        assert!(!moves.is_empty());
        let side = board.side();
        for (k, &pos) in moves.iter().enumerate() {
            assert_eq!(board.side(), side);
            assert!(board.can_sow(pos).is_ok());
            board.sow(pos);
            if k + 1 < moves.len() {
                assert_eq!(board.side(), side);
            }
        }
    }
}

#[test]
fn first_sow_replays_an_opening() {
    let a = RandomSearcher::new(Mcg128Xsl64::new(29));
    let b = RandomSearcher::new(Mcg128Xsl64::new(31));
    let mut game = Game::new(true, a, b);
    game.first_sow(&[2, 5]);
    assert_eq!(game.board().scores(), (2, 0));
    assert_eq!(game.board().side(), Side::Second);
}

#[test]
fn first_sow_may_cross_turns() {
    // an opening that spans both sides' turns is replayed sow by sow
    let a = RandomSearcher::new(Mcg128Xsl64::new(53));
    let b = RandomSearcher::new(Mcg128Xsl64::new(59));
    let mut game = Game::new(true, a, b);
    game.first_sow(&[2, 5, 1]);
    assert_eq!(game.board().scores(), (2, 1));
    assert_eq!(game.board().side(), Side::Second);
}

#[test]
fn greedy_prefers_store_landing_then_spill() {
    // pit 2 holds exactly the seeds to land in the store; after that sow,
    // pit 5 spills into the opponent's row and nothing lands in the store
    let board = Board::from_seeds(true, &[0, 0, 4, 0, 0, 3, 4, 4, 4, 4, 4, 4]);
    let mut greedy = GreedySearcher::new(true, Mcg128Xsl64::new(61));
    let moves = greedy.sow(&board);
    assert_eq!(moves, vec![2, 5]);
}

#[test]
fn greedy_avoids_the_last_pit_without_stealing() {
    // no store landing, no spill from pits before the last: the highest
    // seeded pit before the last one is played
    let board = Board::from_seeds(false, &[1, 0, 0, 0, 0, 2, 4, 4, 4, 4, 4, 4]);
    let mut greedy = GreedySearcher::new(false, Mcg128Xsl64::new(67));
    let moves = greedy.sow(&board);
    assert_eq!(moves, vec![0]);
}

#[test]
fn game_run_reports_final_scores() {
    let greedy = GreedySearcher::new(true, Mcg128Xsl64::new(41));
    let dfs = DepthSearcher::new(ScoreDiffEvaluator::new(), 2);
    let mut game = Game::new(true, greedy, dfs);
    let (a, b) = game.run();
    assert!(game.board().is_finished());
    assert_eq!(a as u32 + b as u32, 48);
}

#[test]
fn evaluator_rollout_count_can_be_changed() {
    let mut eval = McTreeEvaluator::new(Mcg128Xsl64::new(43), 5);
    eval.set_num(12);
    let w = eval.eval(&Board::new(false));
    assert_eq!(w.win as u64 + w.draw as u64 + w.lose as u64, 12);
}

#[test]
fn win_rate_score_counts_outcomes() {
    let mut w = WinRateScore::new();
    w.count(3);
    w.count(0);
    w.count(-2);
    w.count(5);
    assert_eq!(w.win, 2);
    assert_eq!(w.draw, 1);
    assert_eq!(w.lose, 1);
    assert_eq!(w.score, 6);
    let f = w.flip();
    assert_eq!(f.win, 1);
    assert_eq!(f.lose, 2);
    assert_eq!(f.score, -6);
}

#[test]
fn mc_evaluator_tallies_every_rollout() {
    let mut eval = McTreeEvaluator::new(Mcg128Xsl64::new(37), 25);
    let w = eval.eval(&Board::new(true));
    assert_eq!(w.win as u64 + w.draw as u64 + w.lose as u64, 25);
}
