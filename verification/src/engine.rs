use vstd::prelude::*;

use crate::evaluator::Evaluator;
use crate::game::{
    board_result, col_open, has_win, legal_cols, legal_seq, lemma_legal_cols_props,
    lemma_open_col_total_height, lemma_replay_invariants, lemma_total_height_bounds,
    lemma_total_height_place, scan_result, total_height, ConnectFourGame,
};
use crate::score::{lemma_score_orders_unvisited_by_prior, sel_score, PRIOR_SCALE, VISIT_LIMIT};
use crate::tree::{
    lemma_edges_preserved, lemma_node_ok_stable, lemma_path_stable, lemma_under_le,
    lemma_under_stable, lemma_under_trans, ConnectFourState, SearchTree,
};

verus! {

/// Selection score of the node at arena index `c`, under a parent with
/// `parent_v` visits.
pub open spec fn score_of(t: SearchTree, c: int, parent_v: int) -> int {
    sel_score(
        t.nodes@[c].score_total as int,
        t.nodes@[c].visits as int,
        t.nodes@[c].policy as int,
        parent_v,
    )
}

/// Position `j` in the children list `cs` is the one the in-search rule
/// selects: the first position attaining the maximal selection score.
pub open spec fn is_first_argmax(t: SearchTree, cs: Seq<usize>, parent_v: int, j: int) -> bool {
    &&& 0 <= j < cs.len()
    &&& forall|j2: int|
        0 <= j2 < cs.len() ==> #[trigger] score_of(t, cs[j2] as int, parent_v) <= score_of(
            t,
            cs[j] as int,
            parent_v,
        )
    &&& forall|j2: int|
        0 <= j2 < j ==> #[trigger] score_of(t, cs[j2] as int, parent_v) < score_of(
            t,
            cs[j] as int,
            parent_v,
        )
}

/// Walks the children of `node` and returns the position of the first child
/// with the maximal selection score, ties going to the earlier child.
#[verifier::loop_isolation(false)]
fn select_child(tree: &SearchTree, node: usize) -> (j: usize)
    requires
        tree.wf(),
        node < tree.nodes@.len(),
        tree.nodes@[node as int].moves is Some,
        tree.nodes@[node as int].moves.unwrap()@.len() > 0,
        tree.nodes@[node as int].visits <= VISIT_LIMIT,
    ensures
        is_first_argmax(
            *tree,
            tree.nodes@[node as int].moves.unwrap()@,
            tree.nodes@[node as int].visits as int,
            j as int,
        ),
{
    proof {
        assert(tree.node_ok(node as int));
    }
    let ghost cs = tree.nodes@[node as int].moves.unwrap()@;
    let parent_visits = tree.nodes[node].visits;
    let len = tree.nodes[node].moves.as_ref().unwrap().len();
    let c0 = tree.nodes[node].moves.as_ref().unwrap()[0];
    proof {
        assert(tree.node_ok(c0 as int));
    }
    let mut best_j: usize = 0;
    let mut best_score: u64 = tree.nodes[c0].get_score(parent_visits);
    let mut j: usize = 1;
    while j < len
        invariant
            1 <= j <= len,
            0 <= best_j < j,
            best_score as int == score_of(*tree, cs[best_j as int] as int, parent_visits as int),
            forall|j2: int|
                0 <= j2 < j ==> #[trigger] score_of(*tree, cs[j2] as int, parent_visits as int)
                    <= best_score as int,
            forall|j2: int|
                0 <= j2 < best_j ==> #[trigger] score_of(*tree, cs[j2] as int, parent_visits as int)
                    < best_score as int,
        decreases len - j,
    {
        let c = tree.nodes[node].moves.as_ref().unwrap()[j];
        proof {
            assert(tree.node_ok(c as int));
        }
        let sc = tree.nodes[c].get_score(parent_visits);
        if sc > best_score {
            best_j = j;
            best_score = sc;
        }
        j += 1;
    }
    best_j
}

/// Visits of the node at arena index `c` as they stood in `t`: 0 for an
/// index `t` does not reach (a node a later call created).
pub open spec fn prev_visits(t: SearchTree, c: int) -> int {
    if 0 <= c < t.nodes@.len() {
        t.nodes@[c].visits as int
    } else {
        0
    }
}

/// Sum of the visit counts that the nodes listed in `cs` have in `t`
/// (0 for an index `t` does not reach).
pub open spec fn children_total(t: SearchTree, cs: Seq<usize>) -> int
    decreases cs.len(),
{
    if cs.len() == 0 {
        0
    } else {
        children_total(t, cs.drop_last()) + prev_visits(t, cs.last() as int)
    }
}

/// When exactly one listed node gained one visit and the rest kept theirs,
/// the listed total grew by exactly one.
proof fn lemma_children_total_one_visit(prev: SearchTree, next: SearchTree, cs: Seq<usize>, j: int)
    requires
        0 <= j < cs.len(),
        prev_visits(next, cs[j] as int) == prev_visits(prev, cs[j] as int) + 1,
        forall|j2: int|
            0 <= j2 < cs.len() && j2 != j ==> prev_visits(next, #[trigger] cs[j2] as int)
                == prev_visits(prev, cs[j2] as int),
    ensures
        children_total(next, cs) == children_total(prev, cs) + 1,
    decreases cs.len(),
{
    if j == cs.len() - 1 {
        assert forall|j2: int|
            0 <= j2 < cs.drop_last().len() implies prev_visits(
            next,
            #[trigger] cs.drop_last()[j2] as int,
        ) == prev_visits(prev, cs.drop_last()[j2] as int) by {
            assert(cs.drop_last()[j2] == cs[j2]);
        }
        lemma_children_total_same(prev, next, cs.drop_last());
    } else {
        assert(cs.drop_last()[j] == cs[j]);
        lemma_children_total_one_visit(prev, next, cs.drop_last(), j);
        assert(cs.last() == cs[cs.len() - 1]);
    }
}

/// When every listed node kept its visits, the listed total is unchanged.
proof fn lemma_children_total_same(prev: SearchTree, next: SearchTree, cs: Seq<usize>)
    requires
        forall|j2: int|
            0 <= j2 < cs.len() ==> prev_visits(next, #[trigger] cs[j2] as int) == prev_visits(
                prev,
                cs[j2] as int,
            ),
    ensures
        children_total(next, cs) == children_total(prev, cs),
    decreases cs.len(),
{
    if cs.len() > 0 {
        assert forall|j2: int|
            0 <= j2 < cs.drop_last().len() implies prev_visits(
            next,
            #[trigger] cs.drop_last()[j2] as int,
        ) == prev_visits(prev, cs.drop_last()[j2] as int) by {
            assert(cs.drop_last()[j2] == cs[j2]);
        }
        lemma_children_total_same(prev, next, cs.drop_last());
        assert(cs.last() == cs[cs.len() - 1]);
    }
}

/// One simulation from `node`, whose position the shared `game` must stand
/// on: counts the visit, expands the node on its first visit (one child per
/// legal move, with the evaluator's priors), then either stops at a decided
/// or childless position or recurses into the child with the best selection
/// score, restoring `game` move by move on the way back and backpropagating
/// the playout's terminal outcome with the sign of the player to move here.
#[verifier::loop_isolation(false)]
#[verifier::rlimit(60)]
pub fn mcts_connect_four<E: Evaluator>(
    tree: &mut SearchTree,
    node: usize,
    game: &mut ConnectFourGame,
    model: &mut E,
) -> (r: i64)
    requires
        old(tree).wf(),
        node < old(tree).nodes@.len(),
        old(game).wf(),
        old(game).history@ == old(tree).pos_of(node as int),
        forall|i: int|
            0 <= i < old(tree).nodes@.len() ==> #[trigger] old(tree).nodes@[i].visits + 43
                - total_height(old(game).board_state@) <= VISIT_LIMIT,
    ensures
        final(tree).wf(),
        final(tree).keeps_edges_of(*old(tree)),
        forall|i: int|
            0 <= i < old(tree).nodes@.len() ==> #[trigger] final(tree).nodes@[i].policy == old(
                tree,
            ).nodes@[i].policy,
        forall|i: int|
            0 <= i < old(tree).nodes@.len() && old(tree).nodes@[i].moves is Some
                ==> #[trigger] final(tree).nodes@[i].moves == old(tree).nodes@[i].moves,
        forall|i: int|
            0 <= i < old(tree).nodes@.len() && !old(tree).under(node as int, i)
                ==> #[trigger] final(tree).nodes@[i] == old(tree).nodes@[i],
        forall|i: int|
            0 <= i < old(tree).nodes@.len() ==> old(tree).nodes@[i].visits
                <= #[trigger] final(tree).nodes@[i].visits <= old(tree).nodes@[i].visits + 1,
        forall|i: int|
            old(tree).nodes@.len() <= i < final(tree).nodes@.len()
                ==> #[trigger] final(tree).nodes@[i].visits <= 1,
        final(tree).nodes@[node as int].visits == old(tree).nodes@[node as int].visits + 1,
        final(tree).nodes@[node as int].moves is Some,
        final(game).board_state@ == old(game).board_state@,
        final(game).perspective == old(game).perspective,
        final(game).history@ == old(game).history@,
        -1 <= r <= 1,
        final(tree).nodes@[node as int].score_total == old(tree).nodes@[node as int].score_total
            + r * (-old(game).perspective),
        board_result(old(game).board_state@) != 0 || legal_cols(old(game).board_state@).len()
            == 0 ==> r == scan_result(old(game).board_state@),
        (board_result(old(game).board_state@) != 0 || legal_cols(old(game).board_state@).len()
            == 0) && !(has_win(old(game).board_state@, 1) && has_win(old(game).board_state@, -1))
            ==> r == board_result(old(game).board_state@),
        ({
            let cs = final(tree).nodes@[node as int].moves.unwrap()@;
            board_result(old(game).board_state@) == 0 && cs.len() > 0 ==> exists|j: int|
                0 <= j < cs.len() && #[trigger] final(tree).nodes@[cs[j] as int].visits
                    == prev_visits(*old(tree), cs[j] as int) + 1 && forall|j2: int|
                    0 <= j2 < cs.len() && j2 != j ==> final(tree).nodes@[
                        #[trigger] cs[j2] as int
                    ].visits == prev_visits(*old(tree), cs[j2] as int)
        }),
        ({
            let cs = final(tree).nodes@[node as int].moves.unwrap()@;
            board_result(old(game).board_state@) != 0 ==> forall|j: int|
                0 <= j < cs.len() ==> final(tree).nodes@[#[trigger] cs[j] as int].visits
                    == prev_visits(*old(tree), cs[j] as int)
        }),
        ({
            // on a revisit, the child descended into is the first child
            // attaining the maximal selection score over the statistics as
            // they stood at entry
            let cs = final(tree).nodes@[node as int].moves.unwrap()@;
            old(tree).nodes@[node as int].moves is Some && board_result(old(game).board_state@)
                == 0 && cs.len() > 0 ==> exists|j: int|
                #[trigger] is_first_argmax(
                    *old(tree),
                    cs,
                    old(tree).nodes@[node as int].visits + 1,
                    j,
                ) && final(tree).nodes@[cs[j] as int].visits == old(tree).nodes@[
                    cs[j] as int
                ].visits + 1
        }),
        ({
            // fresh children take the evaluator's policy entries raw: one
            // 7-column vector, read at each child's move column, with the
            // mass of the other columns dropped and nothing renormalized
            let cs = final(tree).nodes@[node as int].moves.unwrap()@;
            old(tree).nodes@[node as int].moves is None ==> exists|pol: Seq<u64>|
                pol.len() == 7 && (forall|i: int| 0 <= i < 7 ==> #[trigger] pol[i] <= PRIOR_SCALE)
                    && forall|j: int|
                    0 <= j < cs.len() ==> #[trigger] final(tree).nodes@[cs[j] as int].policy
                        == pol[legal_cols(old(game).board_state@)[j] as int]
        }),
        ({
            // on a first visit, the one child descended into is the first
            // child attaining the maximal selection score of the fresh,
            // unvisited children
            let cs = final(tree).nodes@[node as int].moves.unwrap()@;
            let pv = old(tree).nodes@[node as int].visits + 1;
            old(tree).nodes@[node as int].moves is None && board_result(old(game).board_state@)
                == 0 && cs.len() > 0 ==> exists|j: int|
                0 <= j < cs.len() && #[trigger] final(tree).nodes@[cs[j] as int].visits == 1 && (
                forall|j2: int|
                    0 <= j2 < cs.len() ==> sel_score(
                        0,
                        0,
                        final(tree).nodes@[#[trigger] cs[j2] as int].policy as int,
                        pv,
                    ) <= sel_score(0, 0, final(tree).nodes@[cs[j] as int].policy as int, pv)) && (
                forall|j2: int|
                    0 <= j2 < j ==> sel_score(
                        0,
                        0,
                        final(tree).nodes@[#[trigger] cs[j2] as int].policy as int,
                        pv,
                    ) < sel_score(0, 0, final(tree).nodes@[cs[j] as int].policy as int, pv))
        }),
    decreases 42 - total_height(old(game).board_state@),
{
    let ghost t0 = *tree;
    let ghost g0 = *game;
    let ghost b = game.board_state@;
    let ghost len0 = old(tree).nodes@.len() as int;
    let ghost p0 = game.perspective;
    let ghost th = total_height(b);

    proof {
        lemma_replay_invariants(g0.history@);
        lemma_total_height_bounds(b);
        lemma_legal_cols_props(b);
        assert(t0.node_ok(node as int));
    }

    let v = tree.nodes[node].visits;
    tree.nodes[node].visits = v + 1;
    proof {
        assert(tree.keeps_edges_of(t0));
        lemma_edges_preserved(t0, *tree);
        assert forall|i: int| 0 <= i < tree.nodes@.len() implies #[trigger] tree.node_ok(i) by {
            assert(t0.node_ok(i));
            if i == node as int {
                assert(tree.nodes@[i].score_total == t0.nodes@[i].score_total);
                assert(tree.nodes@[i].visits == t0.nodes@[i].visits + 1);
            } else {
                assert(tree.nodes@[i] == t0.nodes@[i]);
            }
            lemma_node_ok_stable(t0, *tree, i);
        }
        assert(tree.wf());
    }
    let ghost t1 = *tree;
    let ghost mut expansion_policy: Seq<u64> = Seq::empty();

    if tree.nodes[node].moves.is_none() {
        let valid_moves = game.valid_moves();
        let policy = model.evaluate(game);
        proof {
            expansion_policy = policy@;
        }
        let mut cs: Vec<usize> = Vec::new();
        let mut k: usize = 0;
        while k < valid_moves.len()
            invariant
                k == cs@.len(),
                k <= valid_moves@.len(),
                tree.nodes@.len() == t1.nodes@.len() + k,
                tree.base == t1.base,
                forall|i: int|
                    0 <= i < t1.nodes@.len() ==> #[trigger] tree.nodes@[i] == t1.nodes@[i],
                forall|j: int| 0 <= j < k ==> #[trigger] cs@[j] as int == t1.nodes@.len() + j,
                forall|j: int|
                    0 <= j < k ==> {
                        let c = #[trigger] cs@[j] as int;
                        &&& tree.nodes@[c].parent == Some(node)
                        &&& tree.nodes@[c].game_move == Some(valid_moves@[j])
                        &&& tree.nodes@[c].visits == 0
                        &&& tree.nodes@[c].score_total == 0
                        &&& tree.nodes@[c].policy <= PRIOR_SCALE
                        &&& tree.nodes@[c].policy == expansion_policy[valid_moves@[j] as int]
                        &&& tree.nodes@[c].moves is None
                    },
            decreases valid_moves@.len() - k,
        {
            let m = valid_moves[k];
            let prior = policy[m as usize];
            let mut child = ConnectFourState::new(Some(node), prior);
            child.game_move = Some(m);
            let idx = tree.nodes.len();
            tree.nodes.push(child);
            cs.push(idx);
            k += 1;
        }
        tree.nodes[node].moves = Some(cs);
        proof {
            assert(tree.keeps_edges_of(t1));
            lemma_edges_preserved(t1, *tree);
            assert(tree.pos_of(node as int) == g0.history@);
            assert(tree.board_at(node as int) == b);
            let csv = tree.nodes@[node as int].moves.unwrap()@;
            assert forall|j: int| 0 <= j < csv.len() implies #[trigger] tree.path(csv[j] as int)
                == tree.path(node as int).push(legal_cols(b)[j]) by {
                assert(tree.nodes@[csv[j] as int].parent == Some(node));
                assert(tree.nodes@[csv[j] as int].game_move == Some(legal_cols(b)[j]));
            }
            assert forall|j: int|
                0 <= j < csv.len() implies #[trigger] tree.nodes@[csv[j] as int].policy
                == expansion_policy[legal_cols(b)[j] as int] by {}
            assert forall|i: int| 0 <= i < tree.nodes@.len() implies #[trigger] tree.node_ok(
                i,
            ) by {
                if i < t1.nodes@.len() {
                    if i == node {
                        assert(csv.len() == legal_cols(tree.board_at(node as int)).len());
                        assert(tree.node_ok(node as int));
                    } else {
                        assert(t1.node_ok(i));
                        assert(tree.nodes@[i] == t1.nodes@[i]);
                        lemma_node_ok_stable(t1, *tree, i);
                    }
                } else {
                    let j = i - t1.nodes@.len();
                    assert(csv[j] as int == i);
                    let m = legal_cols(b)[j];
                    assert(col_open(b, m as int) && 0 <= m < 7);
                    assert(tree.pos_of(i) =~= g0.history@.push(m));
                    assert(g0.history@.push(m).drop_last() =~= g0.history@);
                    assert(legal_seq(tree.pos_of(i)));
                    assert(tree.node_ok(i));
                }
            }
            assert(tree.wf());
            assert(tree.nodes@[node as int].visits == v + 1);
            assert(tree.nodes@[node as int].score_total == t0.nodes@[node as int].score_total);
            assert forall|i: int|
                0 <= i < len0 && i != node as int implies #[trigger] tree.nodes@[i]
                == t0.nodes@[i] by {}
            assert forall|i: int|
                len0 <= i < tree.nodes@.len() implies #[trigger] tree.nodes@[i].visits == 0
                && tree.nodes@[i].score_total == 0 by {
                let csq = tree.nodes@[node as int].moves.unwrap()@;
                let j = i - t1.nodes@.len();
                assert(csq[j] as int == i);
                assert(tree.nodes@[csq[j] as int].visits == 0);
                assert(tree.nodes@[csq[j] as int].score_total == 0);
            }
        }
    } else {
        proof {
            assert(tree.nodes@.len() == len0);
            assert(tree.nodes@[node as int].visits == v + 1);
            assert(tree.nodes@[node as int].score_total == t0.nodes@[node as int].score_total);
            assert forall|i: int|
                0 <= i < len0 && i != node as int implies #[trigger] tree.nodes@[i]
                == t0.nodes@[i] by {}
        }
    }
    let ghost t2 = *tree;
    proof {
        assert(t2.keeps_edges_of(t0));
        assert(t2.nodes@[node as int].visits == v + 1);
        assert(t2.nodes@[node as int].score_total == t0.nodes@[node as int].score_total);
        assert forall|i: int|
            0 <= i < len0 && i != node as int implies #[trigger] t2.nodes@[i] == t0.nodes@[i] by {}
        assert forall|i: int|
            len0 <= i < t2.nodes@.len() implies #[trigger] t2.nodes@[i].visits == 0
            && t2.nodes@[i].score_total == 0 by {}
        assert(t2.pos_of(node as int) == g0.history@);
        assert(t2.board_at(node as int) == b);
        assert(t2.node_ok(node as int));
        assert(t2.nodes@[node as int].moves.unwrap()@.len() == legal_cols(b).len());
    }
    let ghost csv = t2.nodes@[node as int].moves.unwrap()@;

    let result = game.result();
    let num_children = tree.nodes[node].moves.as_ref().unwrap().len();
    if result == 0 && num_children > 0 {
        proof {
            lemma_open_col_total_height(b, legal_cols(b)[0] as int);
        }
        let j = select_child(tree, node);
        let best = tree.nodes[node].moves.as_ref().unwrap()[j];
        let m = tree.nodes[best].game_move.unwrap();
        proof {
            assert(tree.nodes@[best as int].game_move == Some(legal_cols(b)[j as int]));
            assert(col_open(b, m as int) && 0 <= m < 7);
        }
        game.make_move(m);
        proof {
            lemma_total_height_place(b, m as int, p0);
            assert(t2.path(best as int) == t2.path(node as int).push(m));
            assert(game.history@ =~= t2.pos_of(best as int));
            assert forall|i: int|
                0 <= i < t2.nodes@.len() implies #[trigger] t2.nodes@[i].visits + 43
                - total_height(game.board_state@) <= VISIT_LIMIT by {
                if i == node as int {
                    assert(t2.nodes@[i].visits == v + 1);
                } else if i < len0 {
                    assert(t2.nodes@[i] == t0.nodes@[i]);
                } else {
                    assert(t2.nodes@[i].visits == 0);
                }
            }
        }
        let r = mcts_connect_four(tree, best, game, model);
        game.undo_move();
        proof {
            assert(game.history@ =~= g0.history@);
            assert(game.board_state@ == b);
            assert(game.perspective == p0);
        }
        let ghost t3 = *tree;
        let st = tree.nodes[node].score_total;
        proof {
            assert(!t2.under(best as int, node as int)) by {
                if t2.under(best as int, node as int) {
                    lemma_under_le(t2, best as int, node as int);
                }
            }
            assert(t3.nodes@[node as int] == t2.nodes@[node as int]);
            assert(-1 <= r * (-p0) <= 1) by (nonlinear_arith)
                requires
                    -1 <= r <= 1,
                    p0 == 1 || p0 == -1,
            ;
        }
        let upd = r * (-game.perspective);
        tree.nodes[node].score_total = st + upd;
        proof {
            assert(tree.keeps_edges_of(t3));
            lemma_edges_preserved(t3, *tree);
            assert(t2.nodes@[node as int].score_total == t0.nodes@[node as int].score_total);
            assert(t0.node_ok(node as int));
            assert forall|i: int| 0 <= i < tree.nodes@.len() implies #[trigger] tree.node_ok(
                i,
            ) by {
                assert(t3.node_ok(i));
                if i == node as int {
                    assert(tree.nodes@[i].visits == t3.nodes@[i].visits);
                    assert(tree.nodes@[i].score_total == st + upd);
                } else {
                    assert(tree.nodes@[i] == t3.nodes@[i]);
                }
                lemma_node_ok_stable(t3, *tree, i);
            }
            assert(tree.wf());
            assert(t2.nodes@[best as int].parent == Some(node));
            assert(node < best as int);
            assert(t2.under(node as int, node as int));
            assert(t2.under(node as int, best as int));
            // frame: untouched outside the subtree of `node`
            assert forall|i: int|
                0 <= i < len0 && !t0.under(node as int, i) implies #[trigger] tree.nodes@[i]
                == t0.nodes@[i] by {
                assert(i != node);
                assert(t2.nodes@[i] == t0.nodes@[i]);
                assert(!t2.under(best as int, i)) by {
                    if t2.under(best as int, i) {
                        assert(t2.under(node as int, best as int));
                        lemma_under_trans(t2, node as int, best as int, i);
                        lemma_under_stable(t0, t2, node as int, i);
                    }
                }
                assert(t3.nodes@[i] == t2.nodes@[i]);
            }
            // the selected child took the one new visit; its siblings did not
            assert forall|j2: int|
                0 <= j2 < csv.len() && j2 != j implies tree.nodes@[
                #[trigger] csv[j2] as int
            ].visits == prev_visits(t0, csv[j2] as int) by {
                let c = csv[j2] as int;
                assert(t2.node_ok(node as int));
                assert(node < c < t2.nodes@.len());
                assert(!t2.under(best as int, c)) by {
                    if t2.under(best as int, c) {
                        lemma_under_le(t2, best as int, c);
                        assert(c != best as int);
                        assert(t2.nodes@[c].parent == Some(node));
                        assert(t2.under(best as int, node as int));
                        lemma_under_le(t2, best as int, node as int);
                    }
                }
                assert(t3.nodes@[c] == t2.nodes@[c]);
            }
            assert(tree.nodes@[csv[j as int] as int].visits == prev_visits(
                t0,
                csv[j as int] as int,
            ) + 1);
            // node's own visit was counted before the recursion and kept
            assert(tree.nodes@[node as int].visits == v + 1);
            // visit increments stay single for every pre-existing node
            assert forall|i: int|
                0 <= i < len0 implies t0.nodes@[i].visits <= #[trigger] tree.nodes@[i].visits
                <= t0.nodes@[i].visits + 1 by {
                if i == node {
                } else {
                    assert(t2.nodes@[i] == t0.nodes@[i]);
                }
            }
            // on a first visit the descent followed the selection-score
            // argmax of the fresh children, whose priors never change
            if t0.nodes@[node as int].moves is None {
                assert forall|j2: int| 0 <= j2 < csv.len() implies #[trigger] score_of(
                    t2,
                    csv[j2] as int,
                    v + 1,
                ) == sel_score(0, 0, tree.nodes@[csv[j2] as int].policy as int, v + 1) by {
                    assert(csv[j2] as int >= len0);
                    assert(t2.nodes@[csv[j2] as int].visits == 0);
                    assert(t2.nodes@[csv[j2] as int].score_total == 0);
                    assert(tree.nodes@[csv[j2] as int] == t3.nodes@[csv[j2] as int]
                        || csv[j2] as int == node);
                    assert(t3.nodes@[csv[j2] as int].policy == t2.nodes@[csv[j2] as int].policy);
                }
                assert(tree.nodes@[csv[j as int] as int].visits == 1);
                assert(tree.nodes@[node as int].moves.unwrap()@ == csv);
                let jj = j as int;
                assert forall|j2: int|
                    0 <= j2 < csv.len() implies sel_score(
                    0,
                    0,
                    tree.nodes@[#[trigger] csv[j2] as int].policy as int,
                    v + 1,
                ) <= sel_score(0, 0, tree.nodes@[csv[jj] as int].policy as int, v + 1) by {
                    assert(score_of(t2, csv[j2] as int, v + 1) <= score_of(
                        t2,
                        csv[jj] as int,
                        v + 1,
                    ));
                }
                assert forall|j2: int|
                    0 <= j2 < jj implies sel_score(
                    0,
                    0,
                    tree.nodes@[#[trigger] csv[j2] as int].policy as int,
                    v + 1,
                ) < sel_score(0, 0, tree.nodes@[csv[jj] as int].policy as int, v + 1) by {
                    assert(score_of(t2, csv[j2] as int, v + 1) < score_of(
                        t2,
                        csv[jj] as int,
                        v + 1,
                    ));
                }
                // the fresh priors come raw from the evaluator's one answer
                assert forall|j2: int|
                    0 <= j2 < csv.len() implies #[trigger] tree.nodes@[csv[j2] as int].policy
                    == expansion_policy[legal_cols(b)[j2] as int] by {
                    assert(t2.nodes@[csv[j2] as int].policy == expansion_policy[legal_cols(
                        b,
                    )[j2] as int]);
                    assert(tree.nodes@[csv[j2] as int].policy == t2.nodes@[csv[j2] as int].policy);
                }
                assert(expansion_policy.len() == 7 && (forall|i: int|
                    0 <= i < 7 ==> #[trigger] expansion_policy[i] <= PRIOR_SCALE) && forall|
                    j2: int,
                |
                    0 <= j2 < csv.len() ==> #[trigger] tree.nodes@[csv[j2] as int].policy
                        == expansion_policy[legal_cols(b)[j2] as int]);
            } else {
                // on a revisit the children and their statistics stood
                // unchanged from entry to selection, so the selected child is
                // the entry-time argmax
                assert(t0.nodes@[node as int].moves.unwrap()@ == csv);
                assert(t0.node_ok(node as int));
                assert forall|j2: int|
                    0 <= j2 < csv.len() implies #[trigger] score_of(t0, csv[j2] as int, v + 1)
                    == score_of(t2, csv[j2] as int, v + 1) by {
                    assert((node as int) < csv[j2] && csv[j2] < len0);
                    assert(t2.nodes@[csv[j2] as int] == t0.nodes@[csv[j2] as int]);
                }
                assert forall|j2: int|
                    0 <= j2 < csv.len() implies #[trigger] score_of(t0, csv[j2] as int, v + 1)
                    <= score_of(t0, csv[j as int] as int, v + 1) by {
                    assert(score_of(t2, csv[j2] as int, v + 1) <= score_of(
                        t2,
                        csv[j as int] as int,
                        v + 1,
                    ));
                }
                assert forall|j2: int|
                    0 <= j2 < j as int implies #[trigger] score_of(t0, csv[j2] as int, v + 1)
                    < score_of(t0, csv[j as int] as int, v + 1) by {
                    assert(score_of(t2, csv[j2] as int, v + 1) < score_of(
                        t2,
                        csv[j as int] as int,
                        v + 1,
                    ));
                }
                assert(is_first_argmax(t0, csv, v + 1, j as int));
                assert((node as int) < csv[j as int] && csv[j as int] < len0);
                assert(tree.nodes@[csv[j as int] as int].visits == t0.nodes@[
                    csv[j as int] as int
                ].visits + 1);
            }
        }
        r
    } else {
        let st = tree.nodes[node].score_total;
        proof {
            assert(-1 <= result * (-p0) <= 1) by (nonlinear_arith)
                requires
                    -1 <= result <= 1,
                    p0 == 1 || p0 == -1,
            ;
        }
        let upd = result * (-game.perspective);
        tree.nodes[node].score_total = st + upd;
        let ghost t3 = t2;
        proof {
            assert(tree.keeps_edges_of(t3));
            lemma_edges_preserved(t3, *tree);
            assert(t3.nodes@[node as int].score_total == t0.nodes@[node as int].score_total);
            assert(t3.nodes@[node as int].visits == t0.nodes@[node as int].visits + 1);
            assert(t0.node_ok(node as int));
            assert forall|i: int| 0 <= i < tree.nodes@.len() implies #[trigger] tree.node_ok(
                i,
            ) by {
                assert(t3.node_ok(i));
                if i == node as int {
                    assert(tree.nodes@[i].visits == t3.nodes@[i].visits);
                    assert(tree.nodes@[i].score_total == st + upd);
                } else {
                    assert(tree.nodes@[i] == t3.nodes@[i]);
                }
                lemma_node_ok_stable(t3, *tree, i);
            }
            assert(tree.wf());
            assert forall|i: int|
                0 <= i < len0 && !t0.under(node as int, i) implies #[trigger] tree.nodes@[i]
                == t0.nodes@[i] by {
                assert(i != node);
                assert(t2.nodes@[i] == t0.nodes@[i]);
            }
            assert forall|j2: int| 0 <= j2 < csv.len() implies tree.nodes@[
                #[trigger] csv[j2] as int
            ].visits == prev_visits(t0, csv[j2] as int) by {
                let c = csv[j2] as int;
                assert(t2.node_ok(node as int));
                assert(node < c < t2.nodes@.len());
            }
            if t0.nodes@[node as int].moves is None {
                assert(tree.nodes@[node as int].moves.unwrap()@ == csv);
                assert forall|j2: int|
                    0 <= j2 < csv.len() implies #[trigger] tree.nodes@[csv[j2] as int].policy
                    == expansion_policy[legal_cols(b)[j2] as int] by {
                    assert(t2.nodes@[csv[j2] as int].policy == expansion_policy[legal_cols(
                        b,
                    )[j2] as int]);
                    assert(tree.nodes@[csv[j2] as int] == t2.nodes@[csv[j2] as int]);
                }
                assert(expansion_policy.len() == 7 && (forall|i: int|
                    0 <= i < 7 ==> #[trigger] expansion_policy[i] <= PRIOR_SCALE) && forall|
                    j2: int,
                |
                    0 <= j2 < csv.len() ==> #[trigger] tree.nodes@[csv[j2] as int].policy
                        == expansion_policy[legal_cols(b)[j2] as int]);
            }
        }
        result
    }
}

/// Runs exactly `n` simulations from `node`. Visit conservation: the node's
/// visit count grows by exactly `n`, one per simulation, and the shared game
/// comes back exactly as it went in.
#[verifier::loop_isolation(false)]
pub fn run_simulations<E: Evaluator>(
    tree: &mut SearchTree,
    node: usize,
    game: &mut ConnectFourGame,
    model: &mut E,
    n: u64,
) -> (res: ())
    requires
        old(tree).wf(),
        node < old(tree).nodes@.len(),
        old(game).wf(),
        old(game).history@ == old(tree).pos_of(node as int),
        forall|i: int|
            0 <= i < old(tree).nodes@.len() ==> #[trigger] old(tree).nodes@[i].visits + n + 43
                <= VISIT_LIMIT,
    ensures
        final(tree).wf(),
        final(tree).keeps_edges_of(*old(tree)),
        final(tree).nodes@[node as int].visits == old(tree).nodes@[node as int].visits + n,
        n >= 1 ==> final(tree).nodes@[node as int].moves is Some,
        final(game).board_state@ == old(game).board_state@,
        final(game).perspective == old(game).perspective,
        final(game).history@ == old(game).history@,
        forall|i: int|
            0 <= i < old(tree).nodes@.len() ==> old(tree).nodes@[i].visits
                <= #[trigger] final(tree).nodes@[i].visits <= old(tree).nodes@[i].visits + n,
        forall|i: int|
            old(tree).nodes@.len() <= i < final(tree).nodes@.len()
                ==> #[trigger] final(tree).nodes@[i].visits <= n,
        forall|i: int|
            0 <= i < old(tree).nodes@.len() ==> #[trigger] final(tree).nodes@[i].policy == old(
                tree,
            ).nodes@[i].policy,
        forall|i: int|
            0 <= i < old(tree).nodes@.len() && old(tree).nodes@[i].moves is Some
                ==> #[trigger] final(tree).nodes@[i].moves == old(tree).nodes@[i].moves,
        forall|i: int|
            0 <= i < old(tree).nodes@.len() && !old(tree).under(node as int, i)
                ==> #[trigger] final(tree).nodes@[i] == old(tree).nodes@[i],
        n >= 1 && board_result(old(game).board_state@) == 0 && legal_cols(
            old(game).board_state@,
        ).len() > 0 ==> ({
            let cs = final(tree).nodes@[node as int].moves.unwrap()@;
            children_total(*final(tree), cs) == children_total(*old(tree), cs) + n
        }),
{
    let ghost t0 = *tree;
    let ghost g0 = *game;
    let ghost b = game.board_state@;
    let ghost len0 = old(tree).nodes@.len() as int;
    proof {
        lemma_total_height_bounds(b);
    }
    let mut s: u64 = 0;
    while s < n
        invariant
            0 <= s <= n,
            tree.wf(),
            tree.keeps_edges_of(t0),
            node < tree.nodes@.len(),
            game.board_state@ == b,
            game.perspective == g0.perspective,
            game.history@ == g0.history@,
            game.wf(),
            tree.nodes@[node as int].visits == t0.nodes@[node as int].visits + s,
            s >= 1 ==> tree.nodes@[node as int].moves is Some,
            forall|i: int|
                0 <= i < len0 ==> t0.nodes@[i].visits <= #[trigger] tree.nodes@[i].visits
                    <= t0.nodes@[i].visits + s,
            forall|i: int|
                len0 <= i < tree.nodes@.len() ==> #[trigger] tree.nodes@[i].visits <= s,
            forall|i: int|
                0 <= i < tree.nodes@.len() ==> #[trigger] tree.nodes@[i].visits + (n - s) + 43
                    <= VISIT_LIMIT,
            forall|i: int|
                0 <= i < len0 ==> #[trigger] tree.nodes@[i].policy == t0.nodes@[i].policy,
            forall|i: int|
                0 <= i < len0 && t0.nodes@[i].moves is Some ==> #[trigger] tree.nodes@[i].moves
                    == t0.nodes@[i].moves,
            forall|i: int|
                0 <= i < len0 && !t0.under(node as int, i) ==> #[trigger] tree.nodes@[i]
                    == t0.nodes@[i],
            s == 0 ==> *tree == t0,
            s >= 1 && board_result(b) == 0 && legal_cols(b).len() > 0 ==> ({
                let cs = tree.nodes@[node as int].moves.unwrap()@;
                children_total(*tree, cs) == children_total(t0, cs) + s
            }),
        decreases n - s,
    {
        let ghost tp = *tree;
        proof {
            lemma_path_stable(t0, *tree, node as int);
            assert(game.history@ == tree.pos_of(node as int));
        }
        mcts_connect_four(tree, node, game, model);
        s = s + 1;
        proof {
            assert(tree.keeps_edges_of(t0));
            assert forall|i: int|
                0 <= i < len0 implies t0.nodes@[i].visits <= #[trigger] tree.nodes@[i].visits
                <= t0.nodes@[i].visits + s by {
                assert(tp.nodes@[i].visits <= tree.nodes@[i].visits <= tp.nodes@[i].visits + 1);
            }
            assert forall|i: int|
                len0 <= i < tree.nodes@.len() implies #[trigger] tree.nodes@[i].visits <= s by {
                if i < tp.nodes@.len() {
                    assert(tp.nodes@[i].visits <= tree.nodes@[i].visits <= tp.nodes@[i].visits
                        + 1);
                }
            }
            assert forall|i: int|
                0 <= i < tree.nodes@.len() implies #[trigger] tree.nodes@[i].visits + (n - s) + 43
                <= VISIT_LIMIT by {
                if i < tp.nodes@.len() {
                    assert(tree.nodes@[i].visits <= tp.nodes@[i].visits + 1);
                } else {
                    assert(tree.nodes@[i].visits <= 1);
                }
            }
            assert forall|i: int|
                0 <= i < len0 && !t0.under(node as int, i) implies #[trigger] tree.nodes@[i]
                == t0.nodes@[i] by {
                lemma_under_stable(t0, tp, node as int, i);
                assert(tp.nodes@[i] == t0.nodes@[i]);
            }
            if board_result(b) == 0 && legal_cols(b).len() > 0 {
                lemma_path_stable(t0, *tree, node as int);
                assert(tree.pos_of(node as int) == g0.history@);
                assert(tree.node_ok(node as int));
                assert(tree.board_at(node as int) == b);
                let cs = tree.nodes@[node as int].moves.unwrap()@;
                assert(cs.len() == legal_cols(b).len());
                let j = choose|j: int|
                    0 <= j < cs.len() && #[trigger] tree.nodes@[cs[j] as int].visits
                        == prev_visits(tp, cs[j] as int) + 1 && forall|j2: int|
                        0 <= j2 < cs.len() && j2 != j ==> tree.nodes@[
                            #[trigger] cs[j2] as int
                        ].visits == prev_visits(tp, cs[j2] as int);
                assert forall|j2: int|
                    0 <= j2 < cs.len() && j2 != j implies prev_visits(
                    *tree,
                    #[trigger] cs[j2] as int,
                ) == prev_visits(tp, cs[j2] as int) by {
                    assert((node as int) < cs[j2] && cs[j2] < tree.nodes@.len());
                }
                assert((node as int) < cs[j as int] && cs[j as int] < tree.nodes@.len());
                lemma_children_total_one_visit(tp, *tree, cs, j);
                if s >= 2 {
                    assert(tp.nodes@[node as int].moves.unwrap()@ == cs);
                    assert(children_total(tp, cs) == children_total(t0, cs) + (s - 1));
                } else {
                    assert(tp == t0);
                }
            }
        }
    }
}

/// Deterministic first choice: among unvisited children of a visited
/// parent, a position that attains the maximal selection score carries,
/// when the priors are pairwise distinct, the strictly highest prior — so
/// the first simulation through a freshly expanded node descends into the
/// child the evaluator preferred most.
pub proof fn lemma_first_choice_by_prior(priors: Seq<int>, parent_v: int, j: int)
    requires
        1 <= parent_v,
        forall|j2: int| 0 <= j2 < priors.len() ==> 0 <= #[trigger] priors[j2],
        forall|j1: int, j2: int|
            0 <= j1 < j2 < priors.len() ==> #[trigger] priors[j1] != #[trigger] priors[j2],
        0 <= j < priors.len(),
        forall|j2: int|
            0 <= j2 < priors.len() ==> #[trigger] sel_score(0, 0, priors[j2], parent_v)
                <= sel_score(0, 0, priors[j], parent_v),
    ensures
        forall|j2: int| 0 <= j2 < priors.len() && j2 != j ==> #[trigger] priors[j2] < priors[j],
{
    assert forall|j2: int| 0 <= j2 < priors.len() && j2 != j implies #[trigger] priors[j2]
        < priors[j] by {
        if j2 < j {
            assert(priors[j2] != priors[j]);
        } else {
            assert(priors[j] != priors[j2]);
        }
        if priors[j] < priors[j2] {
            lemma_score_orders_unvisited_by_prior(priors[j], priors[j2], parent_v);
            assert(sel_score(0, 0, priors[j2], parent_v) <= sel_score(0, 0, priors[j], parent_v));
        }
    }
}

} // verus!
