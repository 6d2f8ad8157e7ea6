use vstd::prelude::*;

use crate::evaluator::Evaluator;
use crate::game::{
    board_result, col_open, has_win, legal_cols, lemma_place_no_win_for_other,
    lemma_replay_invariants, lemma_total_height_bounds, lemma_total_height_place, place, replay,
    scan_result, total_height, ConnectFourGame,
};
use crate::engine::run_simulations;
use crate::score::VISIT_LIMIT;
use crate::tree::{
    lemma_path_stable, lemma_under_le, lemma_under_stable, lemma_under_trans, SearchTree,
};

verus! {

/// Position `j` holds the first maximum of the children's visit counts.
pub open spec fn is_first_visit_argmax(t: SearchTree, cs: Seq<usize>, j: int) -> bool {
    &&& 0 <= j < cs.len()
    &&& forall|j2: int|
        0 <= j2 < cs.len() ==> t.nodes@[#[trigger] cs[j2] as int].visits <= t.nodes@[
            cs[j] as int
        ].visits
    &&& forall|j2: int|
        0 <= j2 < j ==> t.nodes@[#[trigger] cs[j2] as int].visits < t.nodes@[cs[j] as int].visits
}

/// The child of `node` with the most visits, ties going to the earlier
/// child; None when the node has no children. The committed real move uses
/// this robust count-based rule, not the in-search selection score.
#[verifier::loop_isolation(false)]
pub fn best_child_by_visits(tree: &SearchTree, node: usize) -> (r: Option<usize>)
    requires
        tree.wf(),
        node < tree.nodes@.len(),
        tree.nodes@[node as int].moves is Some,
    ensures
        ({
            let cs = tree.nodes@[node as int].moves.unwrap()@;
            match r {
                None => cs.len() == 0,
                Some(c) => exists|j: int|
                    #[trigger] is_first_visit_argmax(*tree, cs, j) && c == cs[j],
            }
        }),
{
    proof {
        assert(tree.node_ok(node as int));
    }
    let ghost cs = tree.nodes@[node as int].moves.unwrap()@;
    let len = tree.nodes[node].moves.as_ref().unwrap().len();
    if len == 0 {
        return None;
    }
    let mut best_j: usize = 0;
    let mut best_visits: u64 = tree.nodes[tree.nodes[node].moves.as_ref().unwrap()[0]].visits;
    let mut j: usize = 1;
    while j < len
        invariant
            1 <= j <= len,
            0 <= best_j < j,
            best_visits == tree.nodes@[cs[best_j as int] as int].visits,
            forall|j2: int|
                0 <= j2 < j ==> tree.nodes@[#[trigger] cs[j2] as int].visits <= best_visits,
            forall|j2: int|
                0 <= j2 < best_j ==> tree.nodes@[#[trigger] cs[j2] as int].visits < best_visits,
        decreases len - j,
    {
        let c = tree.nodes[node].moves.as_ref().unwrap()[j];
        let vis = tree.nodes[c].visits;
        if vis > best_visits {
            best_j = j;
            best_visits = vis;
        }
        j += 1;
    }
    let c = tree.nodes[node].moves.as_ref().unwrap()[best_j];
    proof {
        assert(is_first_visit_argmax(*tree, cs, best_j as int));
    }
    Some(c)
}

/// Position `j` holds the first maximum of the children's priors.
pub open spec fn is_first_prior_argmax(t: SearchTree, cs: Seq<usize>, j: int) -> bool {
    &&& 0 <= j < cs.len()
    &&& forall|j2: int|
        0 <= j2 < cs.len() ==> t.nodes@[#[trigger] cs[j2] as int].policy <= t.nodes@[
            cs[j] as int
        ].policy
    &&& forall|j2: int|
        0 <= j2 < j ==> t.nodes@[#[trigger] cs[j2] as int].policy < t.nodes@[cs[j] as int].policy
}

/// The child of `node` with the highest prior, ties going to the earlier
/// child; None when the node has no children. Used by drivers that play
/// straight from the evaluator's policy without a search.
#[verifier::loop_isolation(false)]
pub fn best_child_by_prior(tree: &SearchTree, node: usize) -> (r: Option<usize>)
    requires
        tree.wf(),
        node < tree.nodes@.len(),
        tree.nodes@[node as int].moves is Some,
    ensures
        ({
            let cs = tree.nodes@[node as int].moves.unwrap()@;
            match r {
                None => cs.len() == 0,
                Some(c) => exists|j: int|
                    #[trigger] is_first_prior_argmax(*tree, cs, j) && c == cs[j],
            }
        }),
{
    proof {
        assert(tree.node_ok(node as int));
    }
    let ghost cs = tree.nodes@[node as int].moves.unwrap()@;
    let len = tree.nodes[node].moves.as_ref().unwrap().len();
    if len == 0 {
        return None;
    }
    let mut best_j: usize = 0;
    let mut best_policy: u64 = tree.nodes[tree.nodes[node].moves.as_ref().unwrap()[0]].policy;
    let mut j: usize = 1;
    while j < len
        invariant
            1 <= j <= len,
            0 <= best_j < j,
            best_policy == tree.nodes@[cs[best_j as int] as int].policy,
            forall|j2: int|
                0 <= j2 < j ==> tree.nodes@[#[trigger] cs[j2] as int].policy <= best_policy,
            forall|j2: int|
                0 <= j2 < best_j ==> tree.nodes@[#[trigger] cs[j2] as int].policy < best_policy,
        decreases len - j,
    {
        let c = tree.nodes[node].moves.as_ref().unwrap()[j];
        let p = tree.nodes[c].policy;
        if p > best_policy {
            best_j = j;
            best_policy = p;
        }
        j += 1;
    }
    let c = tree.nodes[node].moves.as_ref().unwrap()[best_j];
    proof {
        assert(is_first_prior_argmax(*tree, cs, best_j as int));
    }
    Some(c)
}

/// In `t`, node `c` is the committed successor of decision node `p`: one of
/// `p`'s children, strictly ahead of every other child of `p` in visits
/// (its own simulations run after the commitment, so the margin is strict).
pub open spec fn committed_child(t: SearchTree, p: int, c: usize) -> bool {
    &&& 0 <= p < t.nodes@.len()
    &&& (c as int) < t.nodes@.len()
    &&& t.nodes@[c as int].parent == Some(p as usize)
    &&& t.nodes@[p].moves is Some
    &&& exists|jx: int|
        0 <= jx < t.nodes@[p].moves.unwrap()@.len() && #[trigger] t.nodes@[p].moves.unwrap()@[jx]
            == c
    &&& forall|jx: int|
        0 <= jx < t.nodes@[p].moves.unwrap()@.len() && #[trigger] t.nodes@[p].moves.unwrap()@[jx]
            != c ==> t.nodes@[t.nodes@[p].moves.unwrap()@[jx] as int].visits < t.nodes@[
            c as int
        ].visits
}

/// Plays one self-play game out from `node`: runs `num_simulations`
/// simulations there (the node's visit count grows by exactly that), and on
/// an undecided position with moves left commits the most-visited child as
/// the real move, records this decision node in `history`, and recurses;
/// every committed move is undone on the way back so the game returns
/// exactly as it came. The recorded entries chain parent-to-committed-child,
/// one per real move played, each an expanded node with children on an
/// undecided board; the returned value is the terminal result of the final
/// position the game reached, the position below the last recorded decision.
#[verifier::loop_isolation(false)]
#[verifier::rlimit(60)]
pub fn play_game<E: Evaluator>(
    tree: &mut SearchTree,
    node: usize,
    game: &mut ConnectFourGame,
    model: &mut E,
    history: &mut Vec<usize>,
    num_simulations: u64,
) -> (r: i64)
    requires
        old(tree).wf(),
        node < old(tree).nodes@.len(),
        old(game).wf(),
        old(game).history@ == old(tree).pos_of(node as int),
        1 <= num_simulations,
        (num_simulations + 43) * 43 <= VISIT_LIMIT,
        forall|i: int|
            0 <= i < old(tree).nodes@.len() ==> #[trigger] old(tree).nodes@[i].visits + (
            num_simulations + 43) * (43 - total_height(old(game).board_state@)) <= VISIT_LIMIT,
    ensures
        final(tree).wf(),
        final(tree).keeps_edges_of(*old(tree)),
        forall|i: int|
            0 <= i < old(tree).nodes@.len() && old(tree).nodes@[i].moves is Some
                ==> #[trigger] final(tree).nodes@[i].moves == old(tree).nodes@[i].moves,
        forall|i: int|
            0 <= i < old(tree).nodes@.len() && !old(tree).under(node as int, i)
                ==> #[trigger] final(tree).nodes@[i] == old(tree).nodes@[i],
        final(tree).nodes@[node as int].visits == old(tree).nodes@[node as int].visits
            + num_simulations,
        final(tree).nodes@[node as int].moves is Some,
        final(game).board_state@ == old(game).board_state@,
        final(game).perspective == old(game).perspective,
        final(game).history@ == old(game).history@,
        final(history)@.len() >= old(history)@.len(),
        final(history)@.subrange(0, old(history)@.len() as int) == old(history)@,
        board_result(old(game).board_state@) == 0 && legal_cols(old(game).board_state@).len() > 0
            ==> final(history)@.len() > old(history)@.len() && final(history)@[old(
            history,
        )@.len() as int] == node,
        forall|k: int|
            old(history)@.len() <= k < final(history)@.len() ==> ({
                let h = #[trigger] final(history)@[k] as int;
                &&& 0 <= h < final(tree).nodes@.len()
                &&& final(tree).nodes@[h].moves is Some
                &&& final(tree).nodes@[h].moves.unwrap()@.len() > 0
                &&& board_result(final(tree).board_at(h)) == 0
            }),
        forall|k: int|
            old(history)@.len() <= k < final(history)@.len() - 1 ==> #[trigger] committed_child(
                *final(tree),
                final(history)@[k] as int,
                final(history)@[k + 1],
            ),
        board_result(old(game).board_state@) == 0 && legal_cols(old(game).board_state@).len() > 0
            ==> exists|c: usize|
            #[trigger] committed_child(
                *final(tree),
                final(history)@[final(history)@.len() - 1] as int,
                c,
            ) && r == board_result(final(tree).board_at(c as int)) && (board_result(
                final(tree).board_at(c as int),
            ) != 0 || legal_cols(final(tree).board_at(c as int)).len() == 0),
        -1 <= r <= 1,
        board_result(old(game).board_state@) != 0 || legal_cols(old(game).board_state@).len()
            == 0 ==> r == scan_result(old(game).board_state@) && final(history)@ == old(
            history,
        )@,
        (board_result(old(game).board_state@) != 0 || legal_cols(old(game).board_state@).len()
            == 0) && !(has_win(old(game).board_state@, 1) && has_win(old(game).board_state@, -1))
            ==> r == board_result(old(game).board_state@) && final(history)@ == old(history)@,
    decreases 42 - total_height(old(game).board_state@),
{
    let ghost t0 = *tree;
    let ghost g0 = *game;
    let ghost b = game.board_state@;
    let ghost th = total_height(b);
    let ghost hist0 = history@;
    let ghost p0 = game.perspective;
    let ghost n = num_simulations as int;

    proof {
        lemma_replay_invariants(g0.history@);
        lemma_total_height_bounds(b);
        assert forall|i: int|
            0 <= i < t0.nodes@.len() implies #[trigger] t0.nodes@[i].visits + num_simulations + 43
            <= VISIT_LIMIT by {
            assert((n + 43) * (43 - th) >= (n + 43) * 1) by (nonlinear_arith)
                requires
                    43 - th >= 1,
                    n + 43 >= 0,
            ;
        }
    }
    run_simulations(tree, node, game, model, num_simulations);
    let ghost t1 = *tree;
    proof {
        lemma_path_stable(t0, *tree, node as int);
        assert(t1.pos_of(node as int) == g0.history@);
        assert(t1.node_ok(node as int));
        assert(t1.board_at(node as int) == b);
    }
    let result = game.result();
    let n_children = tree.nodes[node].moves.as_ref().unwrap().len();
    proof {
        assert(n_children == legal_cols(b).len());
    }
    if result == 0 && n_children > 0 {
        let ghost csv = t1.nodes@[node as int].moves.unwrap()@;
        history.push(node);
        let best = best_child_by_visits(tree, node).unwrap();
        proof {
            let j = choose|j: int| is_first_visit_argmax(t1, csv, j) && best == csv[j];
            assert(t1.nodes@[best as int].game_move == Some(legal_cols(b)[j]));
            crate::game::lemma_legal_cols_props(b);
        }
        let m = tree.nodes[best].game_move.unwrap();
        proof {
            crate::game::lemma_open_col_total_height(b, m as int);
        }
        game.make_move(m);
        let ghost bprime = game.board_state@;
        proof {
            lemma_total_height_place(b, m as int, p0);
            assert(bprime == place(b, m as int, p0));
            assert(t1.path(best as int) == t1.path(node as int).push(m));
            assert(game.history@ =~= t1.pos_of(best as int));
            assert(replay(t1.pos_of(best as int)) == bprime);
            assert forall|i: int|
                0 <= i < t1.nodes@.len() implies #[trigger] t1.nodes@[i].visits + (num_simulations
                + 43) * (43 - total_height(game.board_state@)) <= VISIT_LIMIT by {
                assert((n + 43) * (43 - (th + 1)) == (n + 43) * (43 - th) - (n + 43))
                    by (nonlinear_arith)
                ;
                if i < t0.nodes@.len() {
                    assert(t1.nodes@[i].visits <= t0.nodes@[i].visits + num_simulations);
                } else {
                    assert(t1.nodes@[i].visits <= num_simulations);
                    assert(t0.nodes@[node as int].visits + (n + 43) * (43 - th) <= VISIT_LIMIT);
                }
            }
        }
        let r = play_game(tree, best, game, model, history, num_simulations);
        game.undo_move();
        proof {
            assert(game.history@ =~= g0.history@);
            assert(game.board_state@ == b);
            assert(game.perspective == p0);
            // the recorded prefix: what stood before, then this decision node
            assert(history@.subrange(0, hist0.len() as int + 1) == hist0.push(node));
            assert(history@.subrange(0, hist0.len() as int) =~= hist0);
            assert(hist0.push(node)[hist0.len() as int] == node);
            assert(history@.subrange(0, hist0.len() as int + 1)[hist0.len() as int] == history@[
                hist0.len() as int
            ]);
            assert(history@[hist0.len() as int] == node);
            // the decision node itself came back untouched by the recursion
            let jv = choose|jx: int| is_first_visit_argmax(t1, csv, jx) && best == csv[jx];
            assert((node as int) < csv[jv] && csv[jv] < t1.nodes@.len());
            assert(t1.nodes@[best as int].parent == Some(node));
            assert(t1.under(node as int, node as int));
            assert(t1.under(node as int, best as int));
            assert(!t1.under(best as int, node as int)) by {
                if t1.under(best as int, node as int) {
                    lemma_under_le(t1, best as int, node as int);
                }
            }
            assert(tree.nodes@[node as int] == t1.nodes@[node as int]);
            assert(tree.nodes@[node as int].moves == t1.nodes@[node as int].moves);
            assert(tree.keeps_edges_of(t0));
            // frame: nodes outside this decision's subtree are untouched
            assert forall|i: int|
                0 <= i < t0.nodes@.len() && !t0.under(node as int, i) implies #[trigger] tree.nodes@[i]
                == t0.nodes@[i] by {
                assert(t1.nodes@[i] == t0.nodes@[i]);
                assert(!t1.under(best as int, i)) by {
                    if t1.under(best as int, i) {
                        lemma_under_trans(t1, node as int, best as int, i);
                        lemma_under_stable(t0, t1, node as int, i);
                    }
                }
                assert(tree.nodes@[i] == t1.nodes@[i]);
            }
            // the committed child strictly out-visits every sibling: it held
            // the visit argmax at commit time and then ran its own simulations
            assert(tree.nodes@[best as int].visits == t1.nodes@[best as int].visits
                + num_simulations);
            assert forall|jx: int|
                0 <= jx < csv.len() && csv[jx] != best implies tree.nodes@[
                #[trigger] csv[jx] as int
            ].visits < tree.nodes@[best as int].visits by {
                assert((node as int) < csv[jx] && csv[jx] < t1.nodes@.len());
                assert(!t1.under(best as int, csv[jx] as int)) by {
                    if t1.under(best as int, csv[jx] as int) {
                        lemma_under_le(t1, best as int, csv[jx] as int);
                        assert(t1.nodes@[csv[jx] as int].parent == Some(node));
                        assert(t1.under(best as int, node as int));
                        lemma_under_le(t1, best as int, node as int);
                    }
                }
                assert(tree.nodes@[csv[jx] as int] == t1.nodes@[csv[jx] as int]);
                assert(t1.nodes@[csv[jx] as int].visits <= t1.nodes@[best as int].visits);
            }
            assert(tree.nodes@[node as int].moves.unwrap()@ == csv);
            assert(tree.nodes@[node as int].moves.unwrap()@[jv] == best);
            assert(committed_child(*tree, node as int, best));
            // this decision stands on the entry board, still undecided
            lemma_path_stable(t1, *tree, node as int);
            assert(tree.pos_of(node as int) == g0.history@);
            assert(tree.board_at(node as int) == b);
            assert(!has_win(b, 1) && !has_win(b, -1));
            // a move of the mover alone cannot give the other player a line
            lemma_place_no_win_for_other(b, m as int, p0);
            assert(!(has_win(bprime, 1) && has_win(bprime, -1)));
            // the committed child's position is the board after the move
            lemma_path_stable(t1, *tree, best as int);
            assert(tree.board_at(best as int) == bprime);
            // recorded entries: this node, then whatever the recursion added
            assert forall|k: int|
                hist0.len() <= k < history@.len() implies ({
                let h = #[trigger] history@[k] as int;
                &&& 0 <= h < tree.nodes@.len()
                &&& tree.nodes@[h].moves is Some
                &&& tree.nodes@[h].moves.unwrap()@.len() > 0
                &&& board_result(tree.board_at(h)) == 0
            }) by {
                if k == hist0.len() as int {
                    assert(history@[k] == node);
                }
            }
            // the chain of commitments, level by level
            if board_result(bprime) == 0 && legal_cols(bprime).len() > 0 {
                assert(history@[hist0.len() as int + 1] == best);
            } else {
                assert(history@ == hist0.push(node));
                assert(r == board_result(bprime));
                assert(history@[history@.len() - 1] == node);
                assert(committed_child(*tree, history@[history@.len() - 1] as int, best) && r
                    == board_result(tree.board_at(best as int)) && (board_result(
                    tree.board_at(best as int),
                ) != 0 || legal_cols(tree.board_at(best as int)).len() == 0));
            }
            assert forall|k: int|
                hist0.len() <= k < history@.len() - 1 implies #[trigger] committed_child(
                *tree,
                history@[k] as int,
                history@[k + 1],
            ) by {
                if k == hist0.len() as int {
                    assert(history@[k] == node);
                    assert(history@[k + 1] == best);
                }
            }
        }
        r
    } else {
        proof {
            assert(tree.nodes@[node as int].visits == t0.nodes@[node as int].visits
                + num_simulations);
        }
        result
    }
}

/// Sum of the entries of a counts vector.
pub open spec fn seq_sum(s: Seq<u64>) -> int
    decreases s.len(),
{
    if s.len() == 0 {
        0
    } else {
        seq_sum(s.drop_last()) + s.last()
    }
}

/// Policy target of a recorded decision node, as exact visit counts: entry
/// `col` holds the visit count of the child reached by column `col`, and 0
/// for a column that is not legal there; the returned total is the sum of
/// all seven entries. The training target probability of a column is its
/// entry over the total, so the seven targets sum to exactly one whenever
/// any child was visited: the counts are normalized by construction.
#[verifier::loop_isolation(false)]
pub fn policy_target_counts(tree: &SearchTree, node: usize) -> (r: (Vec<u64>, u64))
    requires
        tree.wf(),
        node < tree.nodes@.len(),
        tree.nodes@[node as int].moves is Some,
    ensures
        r.0@.len() == 7,
        r.1 as int == seq_sum(r.0@),
        ({
            let cs = tree.nodes@[node as int].moves.unwrap()@;
            let legal = legal_cols(tree.board_at(node as int));
            &&& forall|j: int|
                0 <= j < cs.len() ==> r.0@[#[trigger] legal[j] as int] == tree.nodes@[
                    cs[j] as int
                ].visits
            &&& forall|col: int|
                0 <= col < 7 && !col_open(tree.board_at(node as int), col) ==> r.0@[col] == 0
        }),
{
    let ghost board = tree.board_at(node as int);
    proof {
        assert(tree.node_ok(node as int));
        crate::game::lemma_legal_cols_props(board);
    }
    let ghost csv = tree.nodes@[node as int].moves.unwrap()@;
    let ghost legal = legal_cols(board);
    let mut counts: Vec<u64> = Vec::new();
    for i in 0..7usize
        invariant
            counts@.len() == i,
            forall|c: int| 0 <= c < i ==> #[trigger] counts@[c] == 0,
    {
        counts.push(0);
    }
    let len = tree.nodes[node].moves.as_ref().unwrap().len();
    let mut j: usize = 0;
    while j < len
        invariant
            counts@.len() == 7,
            0 <= j <= len,
            forall|j2: int|
                0 <= j2 < j ==> counts@[#[trigger] legal[j2] as int] == tree.nodes@[
                    csv[j2] as int
                ].visits,
            forall|col: int|
                0 <= col < 7 && !(exists|j2: int| 0 <= j2 < j && #[trigger] legal[j2] == col)
                    ==> #[trigger] counts@[col] == 0,
            forall|c: int| 0 <= c < 7 ==> #[trigger] counts@[c] <= VISIT_LIMIT,
        decreases len - j,
    {
        let c = tree.nodes[node].moves.as_ref().unwrap()[j];
        proof {
            assert(tree.node_ok(c as int));
            assert(tree.nodes@[c as int].game_move == Some(legal[j as int]));
        }
        let col = tree.nodes[c].game_move.unwrap();
        let vis = tree.nodes[c].visits;
        counts[col as usize] = vis;
        j += 1;
        proof {
            assert forall|j2: int|
                0 <= j2 < j implies counts@[#[trigger] legal[j2] as int] == tree.nodes@[
                csv[j2] as int
            ].visits by {
                if j2 < j - 1 {
                    assert(legal[j2] != legal[j - 1]);
                }
            }
        }
    }
    let mut total: u64 = 0;
    let mut col: usize = 0;
    while col < 7
        invariant
            0 <= col <= 7,
            counts@.len() == 7,
            total as int == seq_sum(counts@.subrange(0, col as int)),
            total <= col * 4_000_000_000,
            forall|c: int| 0 <= c < 7 ==> #[trigger] counts@[c] <= VISIT_LIMIT,
        decreases 7 - col,
    {
        proof {
            assert(counts@.subrange(0, col as int + 1).drop_last() =~= counts@.subrange(
                0,
                col as int,
            ));
            assert(counts@.subrange(0, col as int + 1).last() == counts@[col as int]);
        }
        total = total + counts[col];
        col += 1;
    }
    proof {
        assert(counts@.subrange(0, 7) =~= counts@);
    }
    (counts, total)
}

/// Training value target for one recorded position: the terminal result of
/// the finished game, re-signed to the player who was to move there — the
/// same sign convention backpropagation uses.
pub fn target_value(result: i64, perspective: i64) -> (v: i64)
    requires
        -1 <= result <= 1,
        perspective == 1 || perspective == -1,
    ensures
        v == result * perspective,
{
    result * perspective
}

} // verus!
