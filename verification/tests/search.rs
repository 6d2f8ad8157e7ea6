use connect_four::engine::{mcts_connect_four, run_simulations};
use connect_four::evaluator::{Evaluator, FixedEvaluator, UniformEvaluator};
use connect_four::game::ConnectFourGame;
use connect_four::score::PRIOR_SCALE;
use connect_four::selfplay::{best_child_by_prior, best_child_by_visits, play_game};
use connect_four::tree::SearchTree;

#[test]
fn evaluators_answer_seven_priors() {
    let game = ConnectFourGame::new();
    let mut uniform = UniformEvaluator {};
    let policy = uniform.evaluate(&game);
    assert_eq!(policy, vec![PRIOR_SCALE / 7; 7]);

    let mut fixed = FixedEvaluator { priors: vec![10, 20, 30] };
    let policy = fixed.evaluate(&game);
    assert_eq!(policy, vec![10, 20, 30, 0, 0, 0, 0]);

    let mut oversized = FixedEvaluator { priors: vec![2 * PRIOR_SCALE; 7] };
    let policy = oversized.evaluate(&game);
    assert_eq!(policy, vec![PRIOR_SCALE; 7]);
}

#[test]
fn first_simulation_expands_root_and_visits_one_child() {
    let mut game = ConnectFourGame::new();
    let mut tree = SearchTree::new(&game);
    let mut model = UniformEvaluator {};
    run_simulations(&mut tree, 0, &mut game, &mut model, 1);
    assert_eq!(tree.nodes[0].visits, 1);
    let children = tree.nodes[0].moves.clone().unwrap();
    assert_eq!(children.len(), 7);
    let mut visited = 0;
    for (j, &c) in children.iter().enumerate() {
        assert_eq!(tree.nodes[c].game_move, Some(j as i64));
        assert_eq!(tree.nodes[c].parent, Some(0));
        if tree.nodes[c].visits == 1 {
            visited += 1;
        } else {
            assert_eq!(tree.nodes[c].visits, 0);
        }
    }
    assert_eq!(visited, 1);
    // the shared game came back untouched
    assert_eq!(game.board_state, [0i64; 42]);
    assert_eq!(game.perspective, 1);
    assert!(game.history.is_empty());
}

#[test]
fn visit_conservation_over_many_simulations() {
    let mut game = ConnectFourGame::new();
    let mut tree = SearchTree::new(&game);
    let mut model = UniformEvaluator {};
    run_simulations(&mut tree, 0, &mut game, &mut model, 300);
    assert_eq!(tree.nodes[0].visits, 300);
    // every simulation from the root descends into exactly one child
    let children = tree.nodes[0].moves.clone().unwrap();
    let total: u64 = children.iter().map(|&c| tree.nodes[c].visits).sum();
    assert_eq!(total, 300);
    assert_eq!(game.board_state, [0i64; 42]);
}

#[test]
fn deterministic_first_choice_takes_highest_prior() {
    let mut game = ConnectFourGame::new();
    let mut tree = SearchTree::new(&game);
    let mut model = FixedEvaluator { priors: vec![10, 50, 30, 70, 20, 60, 40] };
    run_simulations(&mut tree, 0, &mut game, &mut model, 1);
    let children = tree.nodes[0].moves.clone().unwrap();
    for (j, &c) in children.iter().enumerate() {
        let expected = if j == 3 { 1 } else { 0 };
        assert_eq!(tree.nodes[c].visits, expected, "child for column {}", j);
    }
}

#[test]
fn single_simulation_returns_outcome_in_range() {
    let mut game = ConnectFourGame::new();
    let mut tree = SearchTree::new(&game);
    let mut model = UniformEvaluator {};
    let r = mcts_connect_four(&mut tree, 0, &mut game, &mut model);
    assert!(-1 <= r && r <= 1);
    assert_eq!(tree.nodes[0].visits, 1);
}

#[test]
fn simulation_on_won_position_replays_result() {
    let mut game = ConnectFourGame::new();
    for &c in &[0i64, 1, 0, 1, 0, 1, 0] {
        game.make_move(c);
    }
    assert_eq!(game.result(), 1);
    let mut tree = SearchTree::new(&game);
    let mut model = UniformEvaluator {};
    let r1 = mcts_connect_four(&mut tree, 0, &mut game, &mut model);
    let r2 = mcts_connect_four(&mut tree, 0, &mut game, &mut model);
    assert_eq!(r1, 1);
    assert_eq!(r2, 1);
    assert_eq!(tree.nodes[0].visits, 2);
    // each pass adds result * -perspective: 1 * -(-1), twice
    assert_eq!(tree.nodes[0].score_total, 2);
}

#[test]
fn best_child_rules_break_ties_to_the_earlier_child() {
    let game = ConnectFourGame::new();
    let mut tree = SearchTree::new(&game);
    let mut model = UniformEvaluator {};
    let mut scratch = ConnectFourGame::new();
    run_simulations(&mut tree, 0, &mut scratch, &mut model, 7);
    let children = tree.nodes[0].moves.clone().unwrap();
    // force a tie on visits and a strict order on priors
    for &c in &children {
        tree.nodes[c].visits = 5;
        tree.nodes[c].policy = 100;
    }
    tree.nodes[children[2]].policy = 900;
    let by_visits = best_child_by_visits(&tree, 0).unwrap();
    assert_eq!(by_visits, children[0]);
    let by_prior = best_child_by_prior(&tree, 0).unwrap();
    assert_eq!(by_prior, children[2]);
}

#[test]
fn self_play_history_covers_every_decision() {
    let mut game = ConnectFourGame::new();
    let mut tree = SearchTree::new(&game);
    let mut model = UniformEvaluator {};
    let mut history: Vec<usize> = Vec::new();
    let r = play_game(&mut tree, 0, &mut game, &mut model, &mut history, 20);
    assert!(-1 <= r && r <= 1);
    // a connect-four game cannot end before the 7th ply nor after the 42nd
    assert!(history.len() >= 7 && history.len() <= 42);
    for &h in &history {
        let children = tree.nodes[h].moves.clone().unwrap();
        assert!(!children.is_empty());
    }
    // consecutive entries chain parent to committed child, and the committed
    // child strictly out-visits its siblings
    for k in 0..history.len() - 1 {
        let next = history[k + 1];
        assert_eq!(tree.nodes[next].parent, Some(history[k]));
        let children = tree.nodes[history[k]].moves.clone().unwrap();
        assert!(children.contains(&next));
        for &c in &children {
            if c != next {
                assert!(tree.nodes[c].visits < tree.nodes[next].visits);
            }
        }
    }
    // the game came back to its starting position
    assert_eq!(game.board_state, [0i64; 42]);
    assert_eq!(game.perspective, 1);
    assert!(game.history.is_empty());
}
