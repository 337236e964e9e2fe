//! The Monte Carlo tree searcher: selection, expansion, simulation and
//! negamax backpropagation over a `SearchTree`, with tree reuse between
//! successive searches.

use vstd::prelude::*;
use vstd::pervasive::unreached;
use crate::game_state::{
    is_over, lemma_reachable_step, reachable, reachable_in, random_index, GameState,
};
use crate::prune::{lemma_chain_avoid, lemma_detach_chain};
use crate::tree::{backed_up, lemma_chain, NodeId, SearchTree};
use crate::ucb::{spec_ucb1, ucb1_value, FACTOR_LIMIT, MAX_BACKUPS, VALUE_LIMIT};

verus! {

/// The caller-supplied constants of a searcher: the UCB1 exploration factor
/// (a fixed-point number, `FP_SCALE` standing for one) and how many
/// simulations each call to `search` runs.
pub struct SearchParameters {
    pub exploration_factor: i64,
    pub search_iterations: i32,
}

/// Owns one search tree, the node chosen by the previous search (the seed
/// of tree reuse) and the search parameters.
pub struct Searcher<G: GameState> {
    pub tree: SearchTree<G>,
    pub previous_choice: Option<NodeId>,
    pub parameters: SearchParameters,
    /// How many backups the tree has absorbed over its lifetime; bounds
    /// every node's visit count.
    pub backups: Ghost<nat>,
}

impl<G: GameState> Searcher<G> {
    /// Everything the search relies on between operations, except that the
    /// previously chosen node is still alive.
    pub open spec fn tree_inv(&self) -> bool {
        &&& self.tree.wf()
        &&& forall|j: NodeId| #[trigger]
            self.tree.is_live(j) ==> self.tree.node(j).visits <= self.backups@
        &&& self.backups@ <= MAX_BACKUPS
        &&& 0 <= self.parameters.exploration_factor <= FACTOR_LIMIT
        &&& self.parameters.search_iterations >= 0
    }

    /// The searcher invariant: a well-formed tree, bounded statistics, and
    /// a previous choice that still names a live node.
    pub open spec fn inv(&self) -> bool {
        &&& self.tree_inv()
        &&& (self.previous_choice matches Some(id) ==> self.tree.is_live(id))
    }

    /// How many backups the tree has absorbed; each call to `search` adds
    /// its iteration count.
    pub open spec fn total_backups(&self) -> nat {
        self.backups@
    }

    /// The UCB1 value of child `c` under parent `parent` at `factor`.
    pub open spec fn spec_ucb1_of(&self, parent: NodeId, c: NodeId, factor: int) -> int {
        spec_ucb1(
            self.tree.node(c).score as int,
            self.tree.node(c).visits as nat,
            self.tree.node(parent).visits as nat,
            factor,
        )
    }

    /// `c` is the child of `parent` that a scan selecting the greatest UCB1
    /// value at `factor` picks, with ties resolved to the latest-expanded
    /// candidate: no child scores higher, and every later child scores
    /// strictly lower.
    pub open spec fn is_ucb1_choice(&self, parent: NodeId, c: NodeId, factor: int) -> bool {
        exists|k: int|
            {
                &&& 0 <= k < self.tree.node(parent).children@.len()
                &&& (#[trigger] self.tree.node(parent).children@[k]) == c
                &&& forall|j: int|
                    0 <= j < self.tree.node(parent).children@.len() ==> self.spec_ucb1_of(
                        parent,
                        #[trigger] self.tree.node(parent).children@[j],
                        factor,
                    ) <= self.spec_ucb1_of(parent, self.tree.node(parent).children@[k], factor)
                &&& forall|j: int|
                    k < j < self.tree.node(parent).children@.len() ==> self.spec_ucb1_of(
                        parent,
                        #[trigger] self.tree.node(parent).children@[j],
                        factor,
                    ) < self.spec_ucb1_of(parent, self.tree.node(parent).children@[k], factor)
            }
    }

    /// A UCB1 choice among a node's children is unaffected by changes that
    /// leave that node's child list and visit count, and every old node's
    /// statistics, as they were.
    proof fn lemma_choice_preserved(
        pre: Searcher<G>,
        post: Searcher<G>,
        parent: NodeId,
        c: NodeId,
        factor: int,
    )
        requires
            pre.tree.wf_core(),
            pre.tree.is_live(parent),
            pre.is_ucb1_choice(parent, c, factor),
            post.tree.node(parent).children == pre.tree.node(parent).children,
            post.tree.node(parent).visits == pre.tree.node(parent).visits,
            forall|x: NodeId| #[trigger]
                pre.tree.is_live(x) ==> post.tree.node(x).score == pre.tree.node(x).score
                    && post.tree.node(x).visits == pre.tree.node(x).visits,
        ensures
            post.is_ucb1_choice(parent, c, factor),
    {
        let cs = pre.tree.node(parent).children@;
        let k = choose|k: int|
            {
                &&& 0 <= k < pre.tree.node(parent).children@.len()
                &&& (#[trigger] pre.tree.node(parent).children@[k]) == c
                &&& forall|j: int|
                    0 <= j < pre.tree.node(parent).children@.len() ==> pre.spec_ucb1_of(
                        parent,
                        #[trigger] pre.tree.node(parent).children@[j],
                        factor,
                    ) <= pre.spec_ucb1_of(parent, pre.tree.node(parent).children@[k], factor)
                &&& forall|j: int|
                    k < j < pre.tree.node(parent).children@.len() ==> pre.spec_ucb1_of(
                        parent,
                        #[trigger] pre.tree.node(parent).children@[j],
                        factor,
                    ) < pre.spec_ucb1_of(parent, pre.tree.node(parent).children@[k], factor)
            };
        assert(pre.tree.node_ok(parent));
        assert forall|j: int| 0 <= j < cs.len() implies post.spec_ucb1_of(
            parent,
            #[trigger] post.tree.node(parent).children@[j],
            factor,
        ) == pre.spec_ucb1_of(parent, cs[j], factor) by {
            assert(pre.tree.child_edge_ok(parent, cs[j]));
            assert(pre.tree.is_live(cs[j]));
        }
        assert(post.tree.node(parent).children@[k] == c);
    }

    /// A fresh searcher with an empty tree.
    pub fn new(parameters: SearchParameters) -> (s: Self)
        requires
            0 <= parameters.exploration_factor <= FACTOR_LIMIT,
            parameters.search_iterations >= 0,
        ensures
            s.inv(),
            s.previous_choice is None,
            s.total_backups() == 0,
            s.parameters == parameters,
            s.tree.spec_len() == 0,
            forall|j: NodeId| !s.tree.is_live(j),
    {
        Searcher {
            tree: SearchTree::new(),
            previous_choice: None,
            parameters,
            backups: Ghost(0),
        }
    }

    /// Plays a uniformly random game to completion from `initial_state` and
    /// returns the terminal value for `for_player`: the value of some
    /// position reachable from `initial_state` by legal moves. Verified to
    /// terminate: a game that declares itself finite supplies a ply measure
    /// that every legal move strictly decreases.
    pub fn rollout(initial_state: &G, for_player: G::Player) -> (r: i64)
        requires
            G::finite_game(),
        ensures
            -VALUE_LIMIT <= r <= VALUE_LIMIT,
            initial_state.spec_terminal(for_player) matches Some(v) ==> r == v,
            exists|t: G|
                (#[trigger] t.spec_terminal(for_player)) == Some(r) && reachable(
                    *initial_state,
                    t,
                ),
    {
        match initial_state.terminal_value(for_player) {
            Some(v) => {
                proof {
                    assert(initial_state.spec_terminal(for_player) == Some(v));
                    assert(reachable_in(*initial_state, *initial_state, 0));
                    assert(reachable(*initial_state, *initial_state));
                }
                v
            },
            None => {
                proof {
                    initial_state.terminal_definedness(for_player, initial_state.spec_player());
                    initial_state.moves_nonempty();
                }
                let mut moves = initial_state.available_moves();
                proof {
                    assert forall|i: int|
                        0 <= i < moves@.len() implies initial_state.spec_moves().contains(
                        #[trigger] moves@[i],
                    ) by {
                        assert(initial_state.spec_moves()[i] == moves@[i]);
                    }
                }
                let first = match initial_state.default_policy(&mut moves) {
                    Some((m, s)) => {
                        proof {
                            assert(reachable_in(*initial_state, *initial_state, 0));
                            lemma_reachable_step(*initial_state, *initial_state, m, 0);
                        }
                        s
                    },
                    None => unreached(),
                };
                let mut cur = first;
                let ghost mut steps: nat = 1;
                loop
                    invariant
                        G::finite_game(),
                        initial_state.spec_terminal(for_player) is None,
                        reachable_in(*initial_state, cur, steps),
                    decreases cur.measure(),
                {
                    match cur.terminal_value(for_player) {
                        Some(v) => {
                            proof {
                                assert(cur.spec_terminal(for_player) == Some(v));
                                assert(reachable(*initial_state, cur));
                            }
                            return v;
                        },
                        None => {
                            proof {
                                cur.terminal_definedness(for_player, cur.spec_player());
                                cur.moves_nonempty();
                            }
                            let mut mv = cur.available_moves();
                            proof {
                                assert forall|i: int|
                                    0 <= i < mv@.len() implies cur.spec_moves().contains(
                                    #[trigger] mv@[i],
                                ) by {
                                    assert(cur.spec_moves()[i] == mv@[i]);
                                }
                            }
                            let next = match cur.default_policy(&mut mv) {
                                Some((m, s)) => {
                                    proof {
                                        cur.move_decreases(m);
                                        lemma_reachable_step(*initial_state, cur, m, steps);
                                        steps = steps + 1;
                                    }
                                    s
                                },
                                None => unreached(),
                            };
                            cur = next;
                        },
                    }
                }
            },
        }
    }

    /// Pops one not-yet-expanded move of `node_id` (chosen uniformly at
    /// random) and materializes it as a new child; `None` once the node is
    /// fully expanded.
    pub fn expand(&mut self, node_id: NodeId) -> (r: Option<NodeId>)
        requires
            old(self).tree_inv(),
            old(self).tree.is_live(node_id),
            !is_over(old(self).tree.node(node_id).game_state),
            G::finite_game(),
        ensures
            final(self).tree_inv(),
            final(self).backups == old(self).backups,
            final(self).parameters == old(self).parameters,
            final(self).previous_choice == old(self).previous_choice,
            r is None <==> old(self).tree.node(node_id).unexpanded_moves@.len() == 0,
            r is None ==> *final(self) == *old(self),
            r matches Some(c) ==> {
                &&& final(self).tree.is_live(c)
                &&& final(self).tree.node(c).parent == Some(node_id)
                &&& final(self).tree.node(c).visits == 0
                &&& final(self).tree.node(c).score == 0
                &&& final(self).tree.node(node_id).children@ == old(self).tree.node(
                    node_id,
                ).children@.push(c)
                &&& final(self).tree.node(c).game_state.measure() < old(self).tree.node(
                    node_id,
                ).game_state.measure()
                &&& final(self).tree.spec_len() == old(self).tree.spec_len() + 1
                &&& forall|j: NodeId|
                    old(self).tree.is_live(j) ==> final(self).tree.is_live(j)
                &&& forall|j: NodeId| #[trigger]
                    old(self).tree.is_live(j) && j != node_id ==> final(self).tree.node(j)
                        == old(self).tree.node(j)
                &&& final(self).tree.node(node_id).game_state == old(self).tree.node(
                    node_id,
                ).game_state
                &&& final(self).tree.node(node_id).score == old(self).tree.node(node_id).score
                &&& final(self).tree.node(node_id).visits == old(self).tree.node(
                    node_id,
                ).visits
                &&& final(self).tree.node(node_id).parent == old(self).tree.node(
                    node_id,
                ).parent
                &&& final(self).tree.node(node_id).depth == old(self).tree.node(node_id).depth
                &&& final(self).tree.node(c).children@.len() == 0
                &&& final(self).tree.node(c).unexpanded_moves@ == final(self).tree.node(
                    c,
                ).game_state.spec_moves()
                &&& exists|idx: int|
                    #![trigger old(self).tree.node(node_id).unexpanded_moves@[idx]]
                    {
                        let pending = old(self).tree.node(node_id).unexpanded_moves@;
                        &&& 0 <= idx < pending.len()
                        &&& final(self).tree.node(c).incoming_move == Some(pending[idx])
                        &&& final(self).tree.node(c).game_state == old(self).tree.node(
                            node_id,
                        ).game_state.spec_apply(pending[idx])
                        &&& final(self).tree.node(node_id).unexpanded_moves@ == pending.remove(
                            idx,
                        )
                    }
            },
    {
        let len = self.tree.get(node_id).unexpanded_moves.len();
        if len == 0 {
            return None;
        }
        let idx = random_index(len);
        let c = self.tree.expand_child(node_id, idx);
        proof {
            assert forall|j: NodeId| #[trigger]
                self.tree.is_live(j) implies self.tree.node(j).visits <= self.backups@ by {
                if j != c {
                    assert(old(self).tree.is_live(j));
                    if j == node_id {
                    } else {
                        assert(self.tree.node(j) == old(self).tree.node(j));
                    }
                }
            }
        }
        Some(c)
    }

    /// Walks from `node_id` towards the leaves: stops at a terminal node,
    /// expands one child of the first not-fully-expanded node it meets, or
    /// descends to the best child by UCB1 at the searcher's exploration
    /// factor. The returned node lies in `node_id`'s subtree and is either
    /// terminal or a freshly expanded child (no visits, no children, the one
    /// node added by the call); a terminal start node is returned at once,
    /// untouched.
    pub fn tree_policy(&mut self, node_id: NodeId) -> (r: NodeId)
        requires
            old(self).tree_inv(),
            old(self).tree.is_live(node_id),
            G::finite_game(),
        ensures
            final(self).tree_inv(),
            final(self).backups == old(self).backups,
            final(self).parameters == old(self).parameters,
            final(self).previous_choice == old(self).previous_choice,
            final(self).tree.is_live(r),
            final(self).tree.in_subtree(r, node_id),
            final(self).tree.spec_len() <= old(self).tree.spec_len() + 1,
            is_over(final(self).tree.node(r).game_state) || (final(self).tree.node(r).visits
                == 0 && final(self).tree.node(r).children@.len() == 0 && final(self).tree.spec_len() == old(self).tree.spec_len() + 1),
            is_over(old(self).tree.node(node_id).game_state) ==> r == node_id && *final(self)
                == *old(self),
            // the walk from `node_id` down to the returned node (or, when a
            // child was expanded, to its parent) descended through the
            // UCB1-best child at the searcher's exploration factor
            exists|d: int|
                {
                    &&& 0 <= d < final(self).tree.chain(r).len()
                    &&& (#[trigger] final(self).tree.chain(r)[d]) == node_id
                    &&& forall|k: int|
                        (if final(self).tree.spec_len() == old(self).tree.spec_len() {
                            0int
                        } else {
                            1int
                        }) <= k < d ==> final(self).is_ucb1_choice(
                            final(self).tree.chain(r)[k + 1],
                            #[trigger] final(self).tree.chain(r)[k],
                            old(self).parameters.exploration_factor as int,
                        )
                },
            forall|j: NodeId| old(self).tree.is_live(j) ==> final(self).tree.is_live(j),
            forall|j: NodeId| #[trigger]
                old(self).tree.is_live(j) ==> final(self).tree.node(j).game_state == old(self).tree.node(j).game_state && final(self).tree.node(j).score == old(self).tree.node(j).score && final(self).tree.node(j).visits == old(self).tree.node(j).visits && final(self).tree.node(j).parent == old(self).tree.node(j).parent,
            !is_over(old(self).tree.node(node_id).game_state) ==> final(self).tree.node(
                node_id,
            ).children@.len() >= 1,
    {
        let mut cur = node_id;
        proof {
            lemma_chain(old(self).tree, node_id);
            assert(old(self).tree.chain(node_id)[0] == node_id);
            assert(self.tree.chain(cur)[0] == node_id);
        }
        loop
            invariant
                *self == *old(self),
                self.tree_inv(),
                G::finite_game(),
                self.tree.is_live(cur),
                self.tree.is_live(node_id),
                self.tree.in_subtree(cur, node_id),
                exists|d: int|
                    {
                        &&& 0 <= d < self.tree.chain(cur).len()
                        &&& (#[trigger] self.tree.chain(cur)[d]) == node_id
                        &&& forall|k: int|
                            0 <= k < d ==> self.is_ucb1_choice(
                                self.tree.chain(cur)[k + 1],
                                #[trigger] self.tree.chain(cur)[k],
                                self.parameters.exploration_factor as int,
                            )
                    },
                cur != node_id ==> self.tree.node(node_id).children@.len() >= 1 && !is_over(
                    self.tree.node(node_id).game_state,
                ),
            decreases self.tree.node(cur).game_state.measure(),
        {
            let terminal = {
                let n = self.tree.get(cur);
                let pl = n.game_state.next_to_play();
                n.game_state.terminal_value(pl).is_some()
            };
            if terminal {
                return cur;
            }
            let ghost pre = *self;
            match self.expand(cur) {
                Some(leaf) => {
                    proof {
                        assert(self.tree.node(cur).children@.last() == leaf);
                        assert(self.tree.node(cur).children@.contains(leaf));
                        assert(self.tree.node_ok(cur));
                        assert(self.tree.child_edge_ok(cur, leaf));
                        assert forall|y: NodeId| #[trigger]
                            pre.tree.is_live(y) implies self.tree.node(y).parent
                            == pre.tree.node(y).parent && self.tree.node(y).depth
                            == pre.tree.node(y).depth by {
                            if y != cur {
                                assert(self.tree.node(y) == pre.tree.node(y));
                            }
                        }
                        crate::tree::lemma_chain_grow(pre.tree, self.tree, cur);
                        assert(self.tree.chain(leaf) == seq![leaf] + self.tree.chain(cur));
                        lemma_chain(pre.tree, cur);
                        let d = choose|d: int|
                            {
                                &&& 0 <= d < pre.tree.chain(cur).len()
                                &&& (#[trigger] pre.tree.chain(cur)[d]) == node_id
                                &&& forall|k: int|
                                    0 <= k < d ==> pre.is_ucb1_choice(
                                        pre.tree.chain(cur)[k + 1],
                                        #[trigger] pre.tree.chain(cur)[k],
                                        pre.parameters.exploration_factor as int,
                                    )
                            };
                        assert(self.tree.chain(leaf)[d + 1] == node_id);
                        assert(self.tree.in_subtree(leaf, node_id));
                        assert forall|y: NodeId| #[trigger]
                            pre.tree.is_live(y) implies self.tree.node(y).score
                            == pre.tree.node(y).score && self.tree.node(y).visits
                            == pre.tree.node(y).visits by {
                            if y != cur {
                                assert(self.tree.node(y) == pre.tree.node(y));
                            }
                        }
                        assert forall|k: int| 1 <= k < d + 1 implies self.is_ucb1_choice(
                            self.tree.chain(leaf)[k + 1],
                            #[trigger] self.tree.chain(leaf)[k],
                            self.parameters.exploration_factor as int,
                        ) by {
                            let parent = pre.tree.chain(cur)[k];
                            let child = pre.tree.chain(cur)[k - 1];
                            assert(self.tree.chain(leaf)[k + 1] == parent);
                            assert(self.tree.chain(leaf)[k] == child);
                            assert(pre.is_ucb1_choice(
                                parent,
                                child,
                                pre.parameters.exploration_factor as int,
                            ));
                            assert(parent != cur) by {
                                assert(pre.tree.depth_of(pre.tree.chain(cur)[k])
                                    + k == pre.tree.depth_of(cur));
                            }
                            assert(pre.tree.is_live(parent));
                            assert(self.tree.node(parent) == pre.tree.node(parent));
                            Self::lemma_choice_preserved(
                                pre,
                                *self,
                                parent,
                                child,
                                pre.parameters.exploration_factor as int,
                            );
                        }
                    }
                    return leaf;
                },
                None => {},
            }
            proof {
                self.tree.node(cur).game_state.moves_nonempty();
                assert(self.tree.count_ok(cur));
            }
            let next = self.best_child(cur, self.parameters.exploration_factor);
            proof {
                let cs = self.tree.node(cur).children@;
                let k = choose|k: int| 0 <= k < cs.len() && cs[k] == next;
                assert(self.tree.node_ok(cur));
                assert(self.tree.child_edge_ok(cur, next));
                assert(self.tree.chain(next) == seq![next] + self.tree.chain(cur));
                let d = choose|d: int|
                    {
                        &&& 0 <= d < self.tree.chain(cur).len()
                        &&& (#[trigger] self.tree.chain(cur)[d]) == node_id
                        &&& forall|kk: int|
                            0 <= kk < d ==> self.is_ucb1_choice(
                                self.tree.chain(cur)[kk + 1],
                                #[trigger] self.tree.chain(cur)[kk],
                                self.parameters.exploration_factor as int,
                            )
                    };
                assert(self.tree.chain(next)[d + 1] == node_id);
                assert forall|kk: int| 0 <= kk < d + 1 implies self.is_ucb1_choice(
                    self.tree.chain(next)[kk + 1],
                    #[trigger] self.tree.chain(next)[kk],
                    self.parameters.exploration_factor as int,
                ) by {
                    if kk == 0 {
                        assert(self.tree.chain(next)[1] == cur);
                        assert(self.tree.chain(next)[0] == next);
                    } else {
                        assert(self.tree.chain(next)[kk + 1] == self.tree.chain(cur)[kk]);
                        assert(self.tree.chain(next)[kk] == self.tree.chain(cur)[kk - 1]);
                    }
                }
            }
            cur = next;
        }
    }

    /// The child of `parent` with the greatest UCB1 value at
    /// `exploration_factor`; among equals, the latest-expanded one wins.
    pub fn best_child(&self, parent: NodeId, exploration_factor: i64) -> (r: NodeId)
        requires
            self.tree_inv(),
            self.tree.is_live(parent),
            self.tree.node(parent).children@.len() >= 1,
            0 <= exploration_factor <= FACTOR_LIMIT,
        ensures
            self.tree.node(parent).children@.contains(r),
            self.is_ucb1_choice(parent, r, exploration_factor as int),
    {
        let parent_visits = self.tree.get(parent).visits;
        let cnt = self.tree.get(parent).children.len();
        let first = self.tree.get(parent).children[0];
        proof {
            assert(self.tree.node_ok(parent));
            assert(self.tree.child_edge_ok(parent, first));
            assert(self.tree.node_ok(first));
        }
        let mut best = first;
        let mut best_val = {
            let c = self.tree.get(first);
            ucb1_value(c.score, c.visits, parent_visits, exploration_factor)
        };
        let mut i: usize = 1;
        let ghost mut best_k: int = 0;
        while i < cnt
            invariant
                self.tree_inv(),
                self.tree.is_live(parent),
                cnt == self.tree.node(parent).children@.len(),
                parent_visits == self.tree.node(parent).visits,
                0 <= exploration_factor <= FACTOR_LIMIT,
                1 <= i <= cnt,
                0 <= best_k < i,
                self.tree.node(parent).children@[best_k] == best,
                best_val == self.spec_ucb1_of(parent, best, exploration_factor as int),
                forall|j: int|
                    0 <= j < i ==> self.spec_ucb1_of(
                        parent,
                        #[trigger] self.tree.node(parent).children@[j],
                        exploration_factor as int,
                    ) <= best_val,
                forall|j: int|
                    best_k < j < i ==> self.spec_ucb1_of(
                        parent,
                        #[trigger] self.tree.node(parent).children@[j],
                        exploration_factor as int,
                    ) < best_val,
            decreases cnt - i,
        {
            let c_id = self.tree.get(parent).children[i];
            proof {
                assert(self.tree.node_ok(parent));
                assert(self.tree.child_edge_ok(parent, c_id));
                assert(self.tree.node_ok(c_id));
            }
            let val = {
                let c = self.tree.get(c_id);
                ucb1_value(c.score, c.visits, parent_visits, exploration_factor)
            };
            if val >= best_val {
                best = c_id;
                best_val = val;
                proof {
                    best_k = i as int;
                }
            }
            i = i + 1;
        }
        proof {
            assert(self.tree.node(parent).children@[best_k] == best);
        }
        best
    }

    /// Chooses a move for `starting_state`: reuses whatever the tree
    /// already knows about this state, runs exactly `search_iterations`
    /// rounds of selection, expansion, simulation and backpropagation, and
    /// returns the move of the root child that wins UCB1 at exploration
    /// factor zero: pure exploitation decides the answer, whatever factor
    /// steered the search. The returned move is one of `starting_state`'s
    /// legal moves for every game, every prior tree and every parameters
    /// the invariant admits, and the chosen child (recorded for tree
    /// reuse) holds the state that move produces. Each round backs its
    /// simulation up through the root, so the root's visit count grows by
    /// exactly the iteration budget.
    pub fn search(&mut self, starting_state: G) -> (m: G::Move)
        requires
            old(self).inv(),
            G::finite_game(),
            !is_over(starting_state),
            old(self).parameters.search_iterations >= 1,
            old(self).total_backups() + old(self).parameters.search_iterations
                <= MAX_BACKUPS,
        ensures
            final(self).inv(),
            starting_state.spec_moves().contains(m),
            (final(self).previous_choice matches Some(ch) && final(self).tree.is_live(ch)
                && final(self).tree.node(ch).incoming_move == Some(m) && final(self).tree.node(ch).game_state == starting_state.spec_apply(m)),
            // the returned move belongs to the root child that wins UCB1 at
            // exploration factor zero: pure exploitation decides the answer
            ({
                let ch = final(self).previous_choice->0;
                let root = final(self).tree.node(ch).parent->0;
                &&& final(self).tree.node(ch).parent is Some
                &&& final(self).tree.is_live(root)
                &&& final(self).tree.node(root).game_state == starting_state
                &&& final(self).tree.node(root).parent is None
                &&& final(self).tree.node(root).children@.contains(ch)
                &&& final(self).is_ucb1_choice(root, ch, 0)
            }),
            // every backpropagation chain ends at the root, so the root's
            // visit count grows by exactly the iteration budget
            old(self).previous_choice is None ==> ({
                let ch = final(self).previous_choice->0;
                let root = final(self).tree.node(ch).parent->0;
                final(self).tree.node(root).visits == old(self).parameters.search_iterations
            }),
            old(self).previous_choice matches Some(p) ==> ({
                let ch = final(self).previous_choice->0;
                let root = final(self).tree.node(ch).parent->0;
                let cs = old(self).tree.node(p).children@;
                if exists|k: int|
                    0 <= k < cs.len() && old(self).tree.node(#[trigger] cs[k]).game_state
                        == starting_state {
                    exists|k: int|
                        {
                            &&& 0 <= k < cs.len()
                            &&& (#[trigger] cs[k]) == root
                            &&& old(self).tree.node(cs[k]).game_state == starting_state
                            &&& forall|j: int|
                                0 <= j < k ==> old(self).tree.node(
                                    #[trigger] cs[j],
                                ).game_state != starting_state
                            &&& final(self).tree.node(root).visits == old(self).tree.node(
                                cs[k],
                            ).visits + old(self).parameters.search_iterations
                        }
                } else {
                    final(self).tree.node(root).visits == old(self).parameters.search_iterations
                }
            }),
            final(self).total_backups() == old(self).total_backups() + old(self).parameters.search_iterations,
            final(self).parameters == old(self).parameters,
    {
        let player = starting_state.next_to_play();
        let ghost s0 = starting_state;
        let root = self.starting_tree(starting_state);
        let ghost st = *self;
        let ghost v0 = st.tree.node(root).visits;
        let iterations = self.parameters.search_iterations;
        let mut i: i32 = 0;
        while i < iterations
            invariant
                self.tree_inv(),
                G::finite_game(),
                !is_over(s0),
                self.tree.is_live(root),
                self.tree.node(root).game_state == s0,
                self.tree.node(root).parent is None,
                self.tree.node(root).visits == v0 + i,
                iterations == self.parameters.search_iterations,
                iterations >= 1,
                0 <= i <= iterations,
                v0 + iterations <= MAX_BACKUPS,
                self.backups@ == old(self).backups@ + i,
                old(self).backups@ + iterations <= MAX_BACKUPS,
                self.parameters == old(self).parameters,
                i >= 1 ==> self.tree.node(root).children@.len() >= 1,
            decreases iterations - i,
        {
            let leaf = self.tree_policy(root);
            let score = {
                let n = self.tree.get(leaf);
                Self::rollout(&n.game_state, player)
            };
            let ghost pre = *self;
            self.backup_negamax(leaf, score);
            proof {
                assert(pre.tree.in_subtree(leaf, root));
                let k = choose|k: int|
                    0 <= k < pre.tree.chain(leaf).len() && #[trigger] pre.tree.chain(
                        leaf,
                    )[k] == root;
                assert(backed_up(
                    pre.tree.node(root),
                    self.tree.node(root),
                    if k % 2 == 0 {
                        score as int
                    } else {
                        -(score as int)
                    },
                ));
            }
            i = i + 1;
        }
        let best = self.best_child(root, 0);
        proof {
            assert(self.tree.node(root).children@.contains(best));
            let k = choose|k: int|
                0 <= k < self.tree.node(root).children@.len() && #[trigger] self.tree.node(
                    root,
                ).children@[k] == best;
            assert(self.tree.node_ok(root));
            assert(self.tree.child_edge_ok(root, best));
        }
        let ghost picked = *self;
        self.previous_choice = Some(best);
        proof {
            assert(self.tree == picked.tree);
            assert(self.is_ucb1_choice(root, best, 0)) by {
                let k = choose|k: int|
                    {
                        &&& 0 <= k < picked.tree.node(root).children@.len()
                        &&& (#[trigger] picked.tree.node(root).children@[k]) == best
                        &&& forall|j: int|
                            0 <= j < picked.tree.node(root).children@.len()
                                ==> picked.spec_ucb1_of(
                                root,
                                #[trigger] picked.tree.node(root).children@[j],
                                0,
                            ) <= picked.spec_ucb1_of(
                                root,
                                picked.tree.node(root).children@[k],
                                0,
                            )
                        &&& forall|j: int|
                            k < j < picked.tree.node(root).children@.len()
                                ==> picked.spec_ucb1_of(
                                root,
                                #[trigger] picked.tree.node(root).children@[j],
                                0,
                            ) < picked.spec_ucb1_of(
                                root,
                                picked.tree.node(root).children@[k],
                                0,
                            )
                    };
                assert(self.tree.node(root).children@[k] == best);
                assert forall|j: int|
                    0 <= j < self.tree.node(root).children@.len() implies self.spec_ucb1_of(
                    root,
                    #[trigger] self.tree.node(root).children@[j],
                    0,
                ) <= self.spec_ucb1_of(root, self.tree.node(root).children@[k], 0) by {
                    assert(picked.spec_ucb1_of(root, picked.tree.node(root).children@[j], 0)
                        <= picked.spec_ucb1_of(root, picked.tree.node(root).children@[k], 0));
                }
                assert forall|j: int|
                    k < j < self.tree.node(root).children@.len() implies self.spec_ucb1_of(
                    root,
                    #[trigger] self.tree.node(root).children@[j],
                    0,
                ) < self.spec_ucb1_of(root, self.tree.node(root).children@[k], 0) by {
                    assert(picked.spec_ucb1_of(root, picked.tree.node(root).children@[j], 0)
                        < picked.spec_ucb1_of(root, picked.tree.node(root).children@[k], 0));
                }
            }
            // connect the root's final visit count to its starting value
            match old(self).previous_choice {
                None => {
                    assert(v0 == 0);
                },
                Some(p) => {
                    let cs = old(self).tree.node(p).children@;
                    if exists|k: int|
                        0 <= k < cs.len() && old(self).tree.node(#[trigger] cs[k]).game_state
                            == s0 {
                        let k = choose|k: int|
                            {
                                &&& 0 <= k < cs.len()
                                &&& (#[trigger] cs[k]) == root
                                &&& old(self).tree.node(cs[k]).game_state == s0
                                &&& forall|j: int|
                                    0 <= j < k ==> old(self).tree.node(
                                        #[trigger] cs[j],
                                    ).game_state != s0
                            };
                        assert(v0 == old(self).tree.node(cs[k]).visits);
                    } else {
                        assert(v0 == 0);
                    }
                },
            }
        }
        match &self.tree.get(best).incoming_move {
            Some(mv) => G::clone_move(mv),
            None => unreached(),
        }
    }

    /// Establishes the root for a new search from `starting_state`. With no
    /// previous choice a fresh root is created. Otherwise the previous
    /// choice's children are searched for one holding an equal state: if
    /// found, that child is detached (keeping all statistics of its
    /// subtree) and the rest of the old tree is destroyed; if not, the
    /// whole tree is discarded and a fresh root created.
    pub fn starting_tree(&mut self, starting_state: G) -> (r: NodeId)
        requires
            old(self).inv(),
        ensures
            final(self).tree_inv(),
            final(self).backups == old(self).backups,
            final(self).parameters == old(self).parameters,
            final(self).previous_choice == old(self).previous_choice,
            final(self).tree.is_live(r),
            final(self).tree.node(r).game_state == starting_state,
            final(self).tree.node(r).parent is None,
            old(self).previous_choice is None ==> {
                &&& final(self).tree.node(r).visits == 0
                &&& final(self).tree.node(r).score == 0
                &&& final(self).tree.node(r).children@.len() == 0
                &&& final(self).tree.node(r).incoming_move is None
                &&& final(self).tree.node(r).unexpanded_moves@ == starting_state.spec_moves()
                &&& forall|j: NodeId|
                    old(self).tree.is_live(j) ==> final(self).tree.is_live(j)
                        && final(self).tree.node(j) == old(self).tree.node(j)
            },
            old(self).previous_choice matches Some(p) ==> {
                let cs = old(self).tree.node(p).children@;
                if exists|k: int|
                    0 <= k < cs.len() && old(self).tree.node(#[trigger] cs[k]).game_state
                        == starting_state {
                    // tree reuse: the first matching child becomes the root,
                    // its subtree survives intact, the rest of its original
                    // tree is destroyed
                    exists|k: int|
                        {
                            &&& 0 <= k < cs.len()
                            &&& (#[trigger] cs[k]) == r
                            &&& old(self).tree.node(cs[k]).game_state == starting_state
                            &&& forall|j: int|
                                0 <= j < k ==> old(self).tree.node(
                                    #[trigger] cs[j],
                                ).game_state != starting_state
                        } && crate::tree::same_but_parent(
                        old(self).tree.node(r),
                        final(self).tree.node(r),
                    ) && (forall|j: NodeId|
                        final(self).tree.is_live(j) <==> (old(self).tree.is_live(j) && (old(self).tree.in_subtree(j, r) || !old(self).tree.in_subtree(
                            j,
                            old(self).tree.chain(p).last(),
                        )))) && (forall|j: NodeId| #[trigger]
                        final(self).tree.is_live(j) && j != r ==> final(self).tree.node(j)
                            == old(self).tree.node(j))
                } else {
                    // no child matches: the whole tree was discarded and the
                    // result is the only node of a fresh one
                    &&& final(self).tree.node(r).visits == 0
                    &&& final(self).tree.node(r).score == 0
                    &&& final(self).tree.node(r).children@.len() == 0
                    &&& final(self).tree.node(r).incoming_move is None
                    &&& final(self).tree.node(r).unexpanded_moves@
                        == starting_state.spec_moves()
                    &&& forall|j: NodeId| final(self).tree.is_live(j) <==> j == r
                }
            },
    {
        let prev = self.previous_choice;
        match prev {
            None => {
                let r = self.tree.new_node(starting_state);
                proof {
                    assert forall|j: NodeId| #[trigger]
                        self.tree.is_live(j) implies self.tree.node(j).visits
                        <= self.backups@ by {
                        if j != r {
                            assert(old(self).tree.is_live(j));
                        }
                    }
                }
                r
            },
            Some(p) => {
                let cnt = self.tree.get(p).children.len();
                let mut i: usize = 0;
                let mut idx_opt: Option<usize> = None;
                while i < cnt
                    invariant_except_break
                        *self == *old(self),
                        old(self).inv(),
                        old(self).tree.is_live(p),
                        cnt == old(self).tree.node(p).children@.len(),
                        0 <= i <= cnt,
                        idx_opt is None,
                        forall|j: int|
                            0 <= j < i ==> old(self).tree.node(
                                #[trigger] old(self).tree.node(p).children@[j],
                            ).game_state != starting_state,
                    ensures
                        *self == *old(self),
                        idx_opt matches Some(ii) ==> ii < cnt && old(self).tree.node(
                            old(self).tree.node(p).children@[ii as int],
                        ).game_state == starting_state && forall|j: int|
                            0 <= j < ii ==> old(self).tree.node(
                                #[trigger] old(self).tree.node(p).children@[j],
                            ).game_state != starting_state,
                        idx_opt is None ==> forall|j: int|
                            0 <= j < cnt ==> old(self).tree.node(
                                #[trigger] old(self).tree.node(p).children@[j],
                            ).game_state != starting_state,
                    decreases cnt - i,
                {
                    let c = self.tree.get(p).children[i];
                    proof {
                        assert(self.tree.node_ok(p));
                        assert(self.tree.child_edge_ok(p, c));
                    }
                    let eq = self.tree.get(c).game_state.states_equal(&starting_state);
                    if eq {
                        idx_opt = Some(i);
                        break ;
                    }
                    i = i + 1;
                }
                match idx_opt {
                    None => {
                        self.tree.clear();
                        let r = self.tree.new_node(starting_state);
                        proof {
                            assert forall|j: NodeId| #[trigger]
                                self.tree.is_live(j) implies self.tree.node(j).visits
                                <= self.backups@ by {}
                            assert forall|j: NodeId|
                                self.tree.is_live(j) <==> j == r by {
                                if self.tree.is_live(j) && j != r {
                                    assert(j.0 < self.tree.spec_len());
                                }
                            }
                        }
                        r
                    },
                    Some(ii) => {
                        let c = self.tree.get(p).children[ii];
                        let ghost t0 = self.tree;
                        proof {
                            assert(t0.node_ok(p));
                            assert(t0.child_edge_ok(p, c));
                            assert(t0.node(c).parent == Some(p));
                            lemma_chain(t0, p);
                            assert(!t0.chain(p).contains(c)) by {
                                if t0.chain(p).contains(c) {
                                    let kx = choose|kx: int|
                                        0 <= kx < t0.chain(p).len() && #[trigger] t0.chain(
                                            p,
                                        )[kx] == c;
                                    assert(t0.depth_of(t0.chain(p)[kx]) + kx == t0.depth_of(
                                        p,
                                    ));
                                }
                            }
                        }
                        self.tree.detach(c);
                        let ghost t1 = self.tree;
                        proof {
                            assert forall|y: NodeId| #[trigger]
                                t0.is_live(y) implies t1.node(y).depth == t0.node(y).depth by {
                                if y != c && y != p {
                                    assert(t1.node(y) == t0.node(y));
                                }
                            }
                            assert forall|y: NodeId| #[trigger]
                                t0.is_live(y) && y != c implies t1.node(y).parent == t0.node(
                                y,
                            ).parent by {
                                if y != p {
                                    assert(t1.node(y) == t0.node(y));
                                }
                            }
                            lemma_chain_avoid(t0, t1, c, p);
                            assert(t1.chain(p) == t0.chain(p));
                            lemma_chain(t1, p);
                        }
                        let mut top = p;
                        let ghost mut ki: int = 0;
                        loop
                            invariant_except_break
                                self.tree == t1,
                                self.backups == old(self).backups,
                                self.parameters == old(self).parameters,
                                self.previous_choice == old(self).previous_choice,
                                t1.wf_except(p),
                                t1.is_live(p),
                                0 <= ki < t1.chain(p).len(),
                                t1.chain(p)[ki] == top,
                                t1.is_live(top),
                                forall|kk: int|
                                    0 <= kk < t1.chain(p).len() ==> t1.is_live(
                                        #[trigger] t1.chain(p)[kk],
                                    ),
                                forall|kk: int|
                                    0 <= kk < t1.chain(p).len() - 1 ==> t1.node(
                                        #[trigger] t1.chain(p)[kk],
                                    ).parent == Some(t1.chain(p)[kk + 1]),
                                t1.node(t1.chain(p).last()).parent is None,
                            ensures
                                self.tree == t1,
                                self.backups == old(self).backups,
                                self.parameters == old(self).parameters,
                                self.previous_choice == old(self).previous_choice,
                                t1.is_live(top),
                                t1.chain(p).contains(top),
                                t1.node(top).parent is None,
                            decreases t1.chain(p).len() - ki,
                        {
                            let parent_opt = self.tree.get(top).parent;
                            match parent_opt {
                                Some(q) => {
                                    proof {
                                        assert(ki < t1.chain(p).len() - 1) by {
                                            if ki == t1.chain(p).len() - 1 {
                                                assert(t1.chain(p)[ki] == t1.chain(p).last());
                                            }
                                        }
                                        ki = ki + 1;
                                    }
                                    top = q;
                                },
                                None => {
                                    proof {
                                        assert(t1.chain(p).contains(top)) by {
                                            assert(t1.chain(p)[ki] == top);
                                        }
                                    }
                                    break ;
                                },
                            }
                        }
                        proof {
                            assert(t1.in_subtree(p, top)) by {
                                assert(t1.chain(p).contains(top));
                            }
                        }
                        self.tree.remove_subtree_inner(top, Ghost(p));
                        proof {
                            self.lemma_starting_tree_reuse(t0, t1, c, p, top, starting_state);
                        }
                        c
                    },
                }
            },
        }
    }

    /// The composition argument for the tree-reuse branch of
    /// `starting_tree`: translated through the detach step, the nodes that
    /// survive the removal are exactly the detached child's subtree and
    /// whatever lay outside the old root's tree.
    proof fn lemma_starting_tree_reuse(
        &self,
        t0: SearchTree<G>,
        t1: SearchTree<G>,
        c: NodeId,
        p: NodeId,
        top: NodeId,
        starting_state: G,
    )
        requires
            t0.wf(),
            t0.is_live(c),
            t0.is_live(p),
            t0.node(c).parent == Some(p),
            t0.node(c).game_state == starting_state,
            t0.depth_of(p) < t0.depth_of(c),
            t1.spec_len() == t0.spec_len(),
            forall|y: NodeId| t1.is_live(y) == t0.is_live(y),
            crate::tree::same_but_parent(t0.node(c), t1.node(c)),
            t1.node(c).parent is None,
            crate::tree::same_but_children(t0.node(p), t1.node(p)),
            forall|y: NodeId|
                y != c && y != p && t0.is_live(y) ==> #[trigger] t1.node(y) == t0.node(y),
            t1.chain(p) == t0.chain(p),
            t1.chain(p).contains(top),
            forall|kk: int|
                0 <= kk < t1.chain(p).len() ==> t1.depth_of(#[trigger] t1.chain(p)[kk]) + kk
                    == t1.depth_of(p),
            forall|j: NodeId|
                self.tree.is_live(j) <==> (t1.is_live(j) && !t1.in_subtree(j, top)),
            forall|j: NodeId| #[trigger]
                self.tree.is_live(j) ==> self.tree.node(j) == t1.node(j),
            top == t0.chain(p).last(),
        ensures
            self.tree.is_live(c),
            self.tree.node(c).game_state == starting_state,
            self.tree.node(c).parent is None,
            crate::tree::same_but_parent(t0.node(c), self.tree.node(c)),
            forall|j: NodeId|
                self.tree.is_live(j) <==> (t0.is_live(j) && (t0.in_subtree(j, c)
                    || !t0.in_subtree(j, t0.chain(p).last()))),
            forall|j: NodeId| #[trigger]
                self.tree.is_live(j) && j != c ==> self.tree.node(j) == t0.node(j),
    {
        let kt = choose|kt: int|
            0 <= kt < t1.chain(p).len() && #[trigger] t1.chain(p)[kt] == top;
        assert(t1.depth_of(top) + kt == t1.depth_of(p));
        assert(t1.depth_of(top) == t0.depth_of(top));
        assert(t0.depth_of(top) <= t0.depth_of(p));
        assert(t0.depth_of(top) < t0.depth_of(c));
        // the detached child survives: its chain is only itself
        assert(t1.chain(c) == seq![c]);
        assert(top != c);
        assert(!t1.chain(c).contains(top)) by {
            if t1.chain(c).contains(top) {
                let kx = choose|kx: int|
                    0 <= kx < t1.chain(c).len() && #[trigger] t1.chain(c)[kx] == top;
            }
        }
        assert(self.tree.is_live(c));
        // liveness, translated back to the original tree
        assert forall|j: NodeId|
            self.tree.is_live(j) <==> (t0.is_live(j) && (t0.in_subtree(j, c)
                || !t0.in_subtree(j, t0.chain(p).last()))) by {
            if t1.is_live(j) {
                lemma_detach_chain(t0, t1, c, p, top, j);
                assert(t1.chain(j).contains(top) <==> (t0.chain(j).contains(top)
                    && !t0.chain(j).contains(c)));
            }
        }
    }

    /// Adds `score` to the leaf's cumulative score, the negated score to
    /// its parent's, and so on up to the root (`backup` on the tree),
    /// counting the backup against the searcher's lifetime budget.
    pub fn backup_negamax(&mut self, node_id: NodeId, score: i64)
        requires
            old(self).tree_inv(),
            old(self).tree.is_live(node_id),
            -VALUE_LIMIT <= score <= VALUE_LIMIT,
            old(self).backups@ + 1 <= MAX_BACKUPS,
        ensures
            final(self).tree_inv(),
            final(self).backups@ == old(self).backups@ + 1,
            final(self).parameters == old(self).parameters,
            final(self).previous_choice == old(self).previous_choice,
            forall|j: NodeId|
                final(self).tree.is_live(j) == old(self).tree.is_live(j),
            forall|k: int|
                0 <= k < old(self).tree.chain(node_id).len() ==> backed_up(
                    old(self).tree.node(#[trigger] old(self).tree.chain(node_id)[k]),
                    final(self).tree.node(old(self).tree.chain(node_id)[k]),
                    if k % 2 == 0 {
                        score as int
                    } else {
                        -(score as int)
                    },
                ),
            forall|j: NodeId| #[trigger]
                final(self).tree.is_live(j) && !old(self).tree.chain(node_id).contains(j)
                    ==> final(self).tree.node(j) == old(self).tree.node(j),
    {
        proof {
            assert forall|j: NodeId| #[trigger]
                old(self).tree.is_live(j) implies old(self).tree.node(j).visits
                < MAX_BACKUPS by {
                assert(old(self).tree.node(j).visits <= old(self).backups@);
            }
        }
        let ghost ch = self.tree.chain(node_id);
        self.tree.backup(node_id, score);
        proof {
            self.backups@ = self.backups@ + 1;
            assert forall|j: NodeId| #[trigger]
                self.tree.is_live(j) implies self.tree.node(j).visits <= self.backups@ by {
                assert(old(self).tree.is_live(j));
                if ch.contains(j) {
                    let k = choose|k: int| 0 <= k < ch.len() && #[trigger] ch[k] == j;
                    assert(backed_up(
                        old(self).tree.node(j),
                        self.tree.node(j),
                        if k % 2 == 0 {
                            score as int
                        } else {
                            -(score as int)
                        },
                    ));
                } else {
                    assert(self.tree.node(j) == old(self).tree.node(j));
                }
            }
        }
    }
}

} // verus!
