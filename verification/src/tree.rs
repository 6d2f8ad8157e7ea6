use vstd::prelude::*;

use crate::game::{legal_cols, legal_seq, replay, ConnectFourGame};
use crate::score::{
    isqrt, lemma_sqrt_floor_bounds, sel_score, PRIOR_SCALE, SCORE_SCALE, SQRT_SCALE, VISIT_LIMIT,
};
use vstd::arithmetic::div_mod::lemma_div_basics_5;

verus! {

/// One node of the search tree. Nodes live in the arena of a `SearchTree`
/// and name parent and children by arena index; the owning edges run from a
/// parent to its children, the parent index is a non-owning back-reference.
pub struct ConnectFourState {
    /// Column that led here from the parent; None for a search root.
    pub game_move: Option<i64>,
    /// Arena index of the parent; None for a search root.
    pub parent: Option<usize>,
    /// Number of simulation passes that touched this node.
    pub visits: u64,
    /// Signed sum of the outcomes backpropagated through this node.
    pub score_total: i64,
    /// Prior probability of `game_move`, in units of 1 / PRIOR_SCALE.
    pub policy: u64,
    /// Child arena indices, one per legal move at this position; None until
    /// the first visit expands the node, and never rebuilt afterwards.
    pub moves: Option<Vec<usize>>,
}

impl ConnectFourState {
    pub fn new(parent: Option<usize>, policy: u64) -> (s: ConnectFourState)
        ensures
            s.game_move is None,
            s.parent == parent,
            s.visits == 0,
            s.score_total == 0,
            s.policy == policy,
            s.moves is None,
    {
        ConnectFourState {
            game_move: None,
            parent: parent,
            visits: 0,
            score_total: 0,
            policy: policy,
            moves: None,
        }
    }

    /// The in-search selection score of this node under a parent with
    /// `parent_visits` visits, exactly as `sel_score` states it.
    pub fn get_score(&self, parent_visits: u64) -> (score: u64)
        requires
            self.visits <= VISIT_LIMIT,
            -(self.visits as int) <= self.score_total as int <= self.visits as int,
            self.policy <= PRIOR_SCALE,
            parent_visits <= VISIT_LIMIT,
        ensures
            score as int == sel_score(
                self.score_total as int,
                self.visits as int,
                self.policy as int,
                parent_visits as int,
            ),
    {
        proof {
            assert(SQRT_SCALE * SQRT_SCALE == 1048576);
            assert(parent_visits * (SQRT_SCALE * SQRT_SCALE) <= 4_000_000_000 * 1048576)
                by (nonlinear_arith)
                requires
                    parent_visits <= 4_000_000_000,
            ;
        }
        let n = parent_visits * (SQRT_SCALE * SQRT_SCALE);
        let s = isqrt(n);
        proof {
            lemma_sqrt_floor_bounds(n as nat);
            if s > 0x400_0000 {
                assert(s * s > 0x10_0000_0000_0000) by (nonlinear_arith)
                    requires
                        s > 0x400_0000,
                ;
            }
            assert(self.policy * s <= 1_000_000 * 0x400_0000) by (nonlinear_arith)
                requires
                    self.policy <= 1_000_000,
                    0 <= s <= 0x400_0000,
            ;
            lemma_div_basics_5((self.policy * s) as int, (1 + self.visits) as int);
        }
        let explore = (self.policy * s) / (1 + self.visits);
        if self.visits == 0 {
            SCORE_SCALE + explore
        } else {
            let wv = (self.score_total + self.visits as i64) as u64;
            proof {
                assert(SCORE_SCALE == 2_048_000_000);
                assert(SCORE_SCALE * wv <= 2_048_000_000 * 8_000_000_000) by (nonlinear_arith)
                    requires
                        SCORE_SCALE == 2_048_000_000,
                        0 <= wv <= 8_000_000_000,
                ;
                lemma_div_basics_5((SCORE_SCALE * wv) as int, self.visits as int);
            }
            let exploit = (SCORE_SCALE * wv) / self.visits;
            exploit + explore
        }
    }
}

/// The lazily built tree of one search: an arena of nodes, rooted at index 0.
/// `base` records the move history of the game position the root stands on;
/// every node's position is `base` extended by the moves along its path.
pub struct SearchTree {
    pub nodes: Vec<ConnectFourState>,
    pub base: Ghost<Seq<i64>>,
}

impl SearchTree {
    /// The moves that lead from the root to node `n`.
    pub open spec fn path(self, n: int) -> Seq<i64>
        decreases n,
    {
        if 0 <= n < self.nodes@.len() {
            match self.nodes@[n].parent {
                None => Seq::empty(),
                Some(p) => if p < n {
                    self.path(p as int).push(self.nodes@[n].game_move.unwrap())
                } else {
                    Seq::empty()
                },
            }
        } else {
            Seq::empty()
        }
    }

    /// The move history of the game position node `n` stands on.
    pub open spec fn pos_of(self, n: int) -> Seq<i64> {
        self.base@ + self.path(n)
    }

    /// The board of the position node `n` stands on.
    pub open spec fn board_at(self, n: int) -> Seq<i64> {
        replay(self.pos_of(n))
    }

    /// Node `i` lies in the subtree of node `a`: following parent
    /// back-references from `i` reaches `a`.
    pub open spec fn under(self, a: int, i: int) -> bool
        decreases i,
    {
        i == a || (0 <= i < self.nodes@.len() && match self.nodes@[i].parent {
            None => false,
            Some(p) => p < i && self.under(a, p as int),
        })
    }

    /// Everything the arena promises about node `i`.
    pub open spec fn node_ok(self, i: int) -> bool {
        let nd = self.nodes@[i];
        &&& match nd.parent {
            None => nd.game_move is None,
            Some(p) => 0 <= p < i && nd.game_move is Some,
        }
        &&& nd.visits <= VISIT_LIMIT
        &&& -(nd.visits as int) <= nd.score_total as int <= nd.visits as int
        &&& nd.policy <= PRIOR_SCALE
        &&& legal_seq(self.pos_of(i))
        &&& match nd.moves {
            None => true,
            Some(cs) => {
                let legal = legal_cols(self.board_at(i));
                &&& cs@.len() == legal.len()
                &&& forall|j: int|
                    0 <= j < cs@.len() ==> i < #[trigger] cs@[j] < self.nodes@.len()
                &&& forall|j1: int, j2: int|
                    0 <= j1 < j2 < cs@.len() ==> cs@[j1] < cs@[j2]
                &&& forall|j: int|
                    0 <= j < cs@.len() ==> self.nodes@[#[trigger] cs@[j] as int].parent == Some(
                        i as usize,
                    )
                &&& forall|j: int|
                    0 <= j < cs@.len() ==> self.nodes@[#[trigger] cs@[j] as int].game_move == Some(
                        legal[j],
                    )
            },
        }
    }

    /// The whole arena is well formed.
    pub open spec fn wf(self) -> bool {
        &&& legal_seq(self.base@)
        &&& forall|i: int| 0 <= i < self.nodes@.len() ==> #[trigger] self.node_ok(i)
    }

    /// The parent and move edges of `prev`'s nodes all survive into `next`:
    /// `next` may append nodes and change statistics, but keeps the shape.
    pub open spec fn keeps_edges_of(self, prev: SearchTree) -> bool {
        &&& self.base == prev.base
        &&& prev.nodes@.len() <= self.nodes@.len()
        &&& forall|i: int|
            0 <= i < prev.nodes@.len() ==> #[trigger] self.nodes@[i].parent == prev.nodes@[i].parent
                && self.nodes@[i].game_move == prev.nodes@[i].game_move
    }

    /// A fresh tree for the current position of `game`: a single unexpanded
    /// root with prior 0, as each real-move decision starts from.
    pub fn new(game: &ConnectFourGame) -> (t: SearchTree)
        requires
            game.wf(),
        ensures
            t.wf(),
            t.base@ == game.history@,
            t.nodes@.len() == 1,
            t.nodes@[0].visits == 0,
            t.nodes@[0].score_total == 0,
            t.nodes@[0].moves is None,
            t.nodes@[0].parent is None,
    {
        let root = ConnectFourState::new(None, 0);
        let mut nodes: Vec<ConnectFourState> = Vec::new();
        nodes.push(root);
        let t = SearchTree { nodes, base: Ghost(game.history@) };
        proof {
            assert(t.pos_of(0) =~= game.history@);
            assert(t.node_ok(0));
        }
        t
    }
}

/// A path depends only on the parent and move edges below its node.
pub proof fn lemma_path_stable(prev: SearchTree, next: SearchTree, n: int)
    requires
        next.keeps_edges_of(prev),
        0 <= n < prev.nodes@.len(),
    ensures
        next.path(n) == prev.path(n),
    decreases n,
{
    match prev.nodes@[n].parent {
        None => {},
        Some(p) => {
            if p < n {
                lemma_path_stable(prev, next, p as int);
            }
        },
    }
}

/// The subtree relation depends only on the parent edges below its node.
pub proof fn lemma_under_stable(prev: SearchTree, next: SearchTree, a: int, i: int)
    requires
        next.keeps_edges_of(prev),
        0 <= i < prev.nodes@.len(),
    ensures
        next.under(a, i) == prev.under(a, i),
    decreases i,
{
    if i != a {
        match prev.nodes@[i].parent {
            None => {},
            Some(p) => {
                if p < i {
                    lemma_under_stable(prev, next, a, p as int);
                }
            },
        }
    }
}

/// Every path, position and subtree relation of the old arena survives a
/// change that keeps its edges.
pub proof fn lemma_edges_preserved(prev: SearchTree, next: SearchTree)
    requires
        next.keeps_edges_of(prev),
    ensures
        forall|n: int| 0 <= n < prev.nodes@.len() ==> #[trigger] next.path(n) == prev.path(n),
        forall|n: int| 0 <= n < prev.nodes@.len() ==> #[trigger] next.pos_of(n) == prev.pos_of(n),
        forall|a: int, i: int|
            0 <= i < prev.nodes@.len() ==> #[trigger] next.under(a, i) == prev.under(a, i),
{
    assert forall|n: int| 0 <= n < prev.nodes@.len() implies #[trigger] next.path(n) == prev.path(
        n,
    ) by {
        lemma_path_stable(prev, next, n);
    }
    assert forall|a: int, i: int| 0 <= i < prev.nodes@.len() implies #[trigger] next.under(a, i)
        == prev.under(a, i) by {
        lemma_under_stable(prev, next, a, i);
    }
}

/// `node_ok` carries over to an arena that keeps the edges, as long as the
/// node's own statistics stay in bounds and its children list is unchanged.
pub proof fn lemma_node_ok_stable(prev: SearchTree, next: SearchTree, i: int)
    requires
        next.keeps_edges_of(prev),
        0 <= i < prev.nodes@.len(),
        prev.node_ok(i),
        next.nodes@[i].visits <= VISIT_LIMIT,
        -(next.nodes@[i].visits as int) <= next.nodes@[i].score_total as int <= next.nodes@[i].visits as int,
        next.nodes@[i].policy == prev.nodes@[i].policy,
        next.nodes@[i].moves == prev.nodes@[i].moves,
    ensures
        next.node_ok(i),
{
    lemma_edges_preserved(prev, next);
    match prev.nodes@[i].moves {
        None => {},
        Some(cs) => {
            assert(next.pos_of(i) == prev.pos_of(i));
            assert forall|j: int| 0 <= j < cs@.len() implies next.nodes@[#[trigger] cs@[j] as int].parent
                == Some(i as usize) && next.nodes@[cs@[j] as int].game_move == Some(
                legal_cols(next.board_at(i))[j],
            ) by {
                assert(i < cs@[j] < prev.nodes@.len());
                assert(next.nodes@[cs@[j] as int].parent == prev.nodes@[cs@[j] as int].parent);
                assert(next.nodes@[cs@[j] as int].game_move == prev.nodes@[cs@[j] as int].game_move);
            }
        },
    }
}

/// A node of the subtree of `a` never has a smaller index than `a`.
pub proof fn lemma_under_le(t: SearchTree, a: int, i: int)
    requires
        t.under(a, i),
    ensures
        a <= i,
    decreases i,
{
    if i != a {
        match t.nodes@[i].parent {
            None => {},
            Some(p) => {
                if p < i {
                    lemma_under_le(t, a, p as int);
                }
            },
        }
    }
}

/// The subtree relation is transitive.
pub proof fn lemma_under_trans(t: SearchTree, a: int, b: int, i: int)
    requires
        t.under(a, b),
        t.under(b, i),
    ensures
        t.under(a, i),
    decreases i,
{
    if i != b {
        match t.nodes@[i].parent {
            None => {},
            Some(p) => {
                if p < i {
                    lemma_under_trans(t, a, b, p as int);
                }
            },
        }
    }
}

} // verus!
