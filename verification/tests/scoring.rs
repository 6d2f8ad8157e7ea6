use connect_four::game::ConnectFourGame;
use connect_four::score::{isqrt, PRIOR_SCALE, SCORE_SCALE, SQRT_SCALE, VISIT_LIMIT};
use connect_four::selfplay::{play_game, policy_target_counts, target_value};
use connect_four::tree::{ConnectFourState, SearchTree};
use connect_four::engine::run_simulations;
use connect_four::evaluator::UniformEvaluator;

#[test]
fn scale_constants_fit_together() {
    assert_eq!(PRIOR_SCALE, 1_000_000);
    assert_eq!(SQRT_SCALE, 1024);
    assert_eq!(SCORE_SCALE, 2 * PRIOR_SCALE * SQRT_SCALE);
    assert!(VISIT_LIMIT >= 1_000_000_000);
}

#[test]
fn isqrt_exact_values() {
    assert_eq!(isqrt(0), 0);
    assert_eq!(isqrt(1), 1);
    assert_eq!(isqrt(2), 1);
    assert_eq!(isqrt(3), 1);
    assert_eq!(isqrt(4), 2);
    assert_eq!(isqrt(15), 3);
    assert_eq!(isqrt(16), 4);
    assert_eq!(isqrt(1 << 20), 1024);
    assert_eq!(isqrt((1u64 << 52) - 1), (1 << 26) - 1);
    assert_eq!(isqrt(1u64 << 52), 1 << 26);
}

#[test]
fn unvisited_node_scores_by_prior_and_parent_visits() {
    let node = ConnectFourState::new(None, PRIOR_SCALE);
    // sqrt(1) in fixed point is SQRT_SCALE, so the exploration term is
    // prior * SQRT_SCALE / (1 + 0)
    assert_eq!(node.get_score(1), SCORE_SCALE + PRIOR_SCALE * SQRT_SCALE);
    // sqrt(4) doubles the exploration term
    assert_eq!(node.get_score(4), SCORE_SCALE + 2 * PRIOR_SCALE * SQRT_SCALE);
}

#[test]
fn visited_node_scores_by_mean_outcome() {
    let mut node = ConnectFourState::new(None, 0);
    node.visits = 4;
    node.score_total = 2;
    // exploitation (2 + 4) / 4 of SCORE_SCALE, no exploration with prior 0
    assert_eq!(node.get_score(16), SCORE_SCALE * 6 / 4);
    node.score_total = -4;
    // an always-lost node scores the shifted minimum, 0
    assert_eq!(node.get_score(16), 0);
}

#[test]
fn target_value_signs_result_to_the_mover() {
    assert_eq!(target_value(1, 1), 1);
    assert_eq!(target_value(1, -1), -1);
    assert_eq!(target_value(-1, -1), 1);
    assert_eq!(target_value(0, 1), 0);
}

#[test]
fn targets_can_be_derived_for_every_recorded_decision() {
    let mut game = ConnectFourGame::new();
    let mut tree = SearchTree::new(&game);
    let mut model = UniformEvaluator {};
    let mut history: Vec<usize> = Vec::new();
    let result = play_game(&mut tree, 0, &mut game, &mut model, &mut history, 30);
    let mut replayed = 0;
    for &node in &history {
        if let Some(m) = tree.nodes[node].game_move {
            assert!(game.move_valid(m));
            game.make_move(m);
            replayed += 1;
        }
        let (counts, total) = policy_target_counts(&tree, node);
        assert!(total > 0, "every recorded decision was simulated");
        assert_eq!(counts.iter().sum::<u64>(), total);
        let tv = target_value(result, game.perspective);
        assert!(-1 <= tv && tv <= 1);
    }
    for _ in 0..replayed {
        game.undo_move();
    }
    assert_eq!(game.board_state, [0i64; 42]);
    assert!(game.history.is_empty());
}

#[test]
fn policy_targets_are_visit_shares_that_sum_to_one() {
    let mut game = ConnectFourGame::new();
    // fill column 0 so one column is illegal at the root
    for _ in 0..3 {
        game.make_move(0);
        game.make_move(0);
    }
    let mut tree = SearchTree::new(&game);
    let mut model = UniformEvaluator {};
    run_simulations(&mut tree, 0, &mut game, &mut model, 25);
    let (counts, total) = policy_target_counts(&tree, 0);
    assert_eq!(counts.len(), 7);
    assert_eq!(counts[0], 0, "a full column gets no probability mass");
    assert_eq!(counts.iter().sum::<u64>(), total);
    // every simulation from the root visited exactly one child
    assert_eq!(total, 25);
    let children = tree.nodes[0].moves.clone().unwrap();
    for (j, &c) in children.iter().enumerate() {
        let col = tree.nodes[c].game_move.unwrap() as usize;
        assert_eq!(col, j + 1);
        assert_eq!(counts[col], tree.nodes[c].visits);
    }
}
