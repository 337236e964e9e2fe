//! The search tree store: an arena of nodes addressed by stable identifiers.
//!
//! Nodes reference their parent and children by identifier, never by owning
//! pointers, so a subtree can be detached or destroyed without invalidating
//! its siblings' identifiers. Identifiers of removed nodes stay invalid
//! forever: a slot is never reused.
//!
//! The well-formedness predicate `wf` ties the shape of the tree to the game:
//! every child was produced by a legal move of its parent's state, a node's
//! children and its not-yet-expanded moves together account for exactly the
//! legal moves of its state, and every node's cumulative score is bounded by
//! its visit count. All operations preserve it; `detach` alone leaves the
//! ex-parent's move count short by one, stated by `wf_except`, until the
//! ex-parent itself is removed.

use vstd::prelude::*;
use vstd::pervasive::unreached;
use crate::game_state::{is_over, GameState};
use crate::ucb::{MAX_BACKUPS, VALUE_LIMIT};

verus! {

/// A stable identifier of a node in a `SearchTree`.
#[derive(PartialEq, Eq, Structural, Clone, Copy, Debug)]
pub struct NodeId(pub usize);

/// The atomic unit of the tree.
pub struct SearchNode<G: GameState> {
    /// The state this node represents.
    pub game_state: G,
    /// The move that produced this state from its parent; `None` for a node
    /// created as a root.
    pub incoming_move: Option<G::Move>,
    /// Sum of the simulation outcomes backed up through this node, signed
    /// from the perspective of the player to move at this node's parent.
    pub score: i64,
    /// Number of times this node was updated during backpropagation.
    pub visits: u64,
    /// Legal moves of `game_state` not yet materialized as children;
    /// expansion consumes them one by one.
    pub unexpanded_moves: Vec<G::Move>,
    /// The parent, `None` for a root.
    pub parent: Option<NodeId>,
    /// The children, in the order they were expanded.
    pub children: Vec<NodeId>,
    /// Distance from the node's original root, used only in proofs.
    pub depth: Ghost<nat>,
}

/// An arena mapping stable identifiers to nodes plus parent/child adjacency.
/// The slot vector is readable from outside, but every operation's contract
/// speaks only through `is_live` and `node`; all mutation goes through the
/// methods below, which preserve `wf`.
pub struct SearchTree<G: GameState> {
    pub nodes: Vec<Option<SearchNode<G>>>,
}

impl<G: GameState> SearchTree<G> {
    /// How many identifiers were ever handed out.
    pub open spec fn spec_len(&self) -> nat {
        self.nodes@.len()
    }

    /// Whether `id` currently names a node.
    pub open spec fn is_live(&self, id: NodeId) -> bool {
        id.0 < self.nodes@.len() && self.nodes@[id.0 as int] is Some
    }

    /// The node `id` names; meaningful only when `is_live(id)`.
    pub open spec fn node(&self, id: NodeId) -> SearchNode<G> {
        self.nodes@[id.0 as int]->0
    }

    /// The ghost depth of a node, zero for anything dead.
    pub open spec fn depth_of(&self, id: NodeId) -> nat {
        if self.is_live(id) {
            self.node(id).depth@
        } else {
            0
        }
    }

    /// The ancestor chain of `id`: the node itself, its parent, and so on
    /// up to a root. In a well-formed tree the guards in the walk never cut
    /// it short.
    pub open spec fn chain(&self, id: NodeId) -> Seq<NodeId>
        decreases self.depth_of(id),
    {
        if self.is_live(id) {
            match self.node(id).parent {
                Some(p) => {
                    if self.is_live(p) && self.depth_of(p) < self.depth_of(id) {
                        seq![id] + self.chain(p)
                    } else {
                        seq![id]
                    }
                },
                None => seq![id],
            }
        } else {
            Seq::empty()
        }
    }

    /// Whether `id` lies in the subtree rooted at `root`.
    pub open spec fn in_subtree(&self, id: NodeId, root: NodeId) -> bool {
        self.is_live(id) && self.chain(id).contains(root)
    }

    /// A parent-to-child edge carries a legal move: the child is live, knows
    /// this parent, sits one level deeper, and its state is the parent's
    /// state after the child's incoming move, with a strictly smaller ply
    /// measure.
    pub open spec fn child_edge_ok(&self, i: NodeId, c: NodeId) -> bool {
        &&& self.is_live(c)
        &&& self.node(c).parent == Some(i)
        &&& self.node(c).depth@ == self.node(i).depth@ + 1
        &&& self.node(c).incoming_move is Some
        &&& self.node(i).game_state.spec_moves().contains(self.node(c).incoming_move->0)
        &&& self.node(c).game_state == self.node(i).game_state.spec_apply(
            self.node(c).incoming_move->0,
        )
        &&& self.node(c).game_state.measure() < self.node(i).game_state.measure()
    }

    /// The per-node part of well-formedness, except the move count.
    pub open spec fn node_ok(&self, i: NodeId) -> bool {
        let n = self.node(i);
        &&& forall|k: int|
            0 <= k < n.children@.len() ==> self.child_edge_ok(i, #[trigger] n.children@[k])
        &&& forall|k1: int, k2: int|
            0 <= k1 < k2 < n.children@.len() ==> n.children@[k1] != n.children@[k2]
        &&& forall|k: int|
            0 <= k < n.unexpanded_moves@.len() ==> n.game_state.spec_moves().contains(
                #[trigger] n.unexpanded_moves@[k],
            )
        &&& (n.parent matches Some(p) ==> self.is_live(p) && self.node(p).children@.contains(i))
        &&& -VALUE_LIMIT * n.visits <= n.score <= VALUE_LIMIT * n.visits
    }

    /// A node's children and unexpanded moves together account for exactly
    /// the legal moves of its state: it is fully expanded exactly when its
    /// unexpanded sequence is empty.
    pub open spec fn count_ok(&self, i: NodeId) -> bool {
        self.node(i).children@.len() + self.node(i).unexpanded_moves@.len() == self.node(
            i,
        ).game_state.spec_moves().len()
    }

    /// Everything `wf` asks except the move counts.
    pub open spec fn wf_core(&self) -> bool {
        forall|i: NodeId| #[trigger] self.is_live(i) ==> self.node_ok(i)
    }

    /// The tree invariant.
    pub open spec fn wf(&self) -> bool {
        &&& self.wf_core()
        &&& forall|i: NodeId| #[trigger] self.is_live(i) ==> self.count_ok(i)
    }

    /// The tree invariant, except that `x`'s move count may be short: the
    /// state of affairs between detaching a child of `x` and removing `x`.
    pub open spec fn wf_except(&self, x: NodeId) -> bool {
        &&& self.wf_core()
        &&& forall|i: NodeId| #[trigger] self.is_live(i) && i != x ==> self.count_ok(i)
    }

    /// An empty arena.
    pub fn new() -> (t: Self)
        ensures
            t.wf(),
            t.spec_len() == 0,
            forall|j: NodeId| !t.is_live(j),
    {
        SearchTree { nodes: Vec::new() }
    }

    /// How many identifiers were ever handed out.
    pub fn len(&self) -> (r: usize)
        ensures
            r == self.spec_len(),
    {
        self.nodes.len()
    }

    /// Whether `id` no longer (or never did) name a node.
    pub fn is_removed(&self, id: NodeId) -> (r: bool)
        ensures
            r == !self.is_live(id),
    {
        if id.0 >= self.nodes.len() {
            true
        } else {
            self.nodes[id.0].is_none()
        }
    }

    /// A view of the node `id` names. Looking up a removed identifier is a
    /// programming error, ruled out by the precondition rather than handled.
    pub fn get(&self, id: NodeId) -> (r: &SearchNode<G>)
        requires
            self.is_live(id),
        ensures
            *r == self.node(id),
    {
        match &self.nodes[id.0] {
            Some(n) => n,
            None => unreached(),
        }
    }

    /// Removes the node from its slot, leaving the slot dead.
    pub(crate) fn take_node(&mut self, id: NodeId) -> (n: SearchNode<G>)
        requires
            old(self).is_live(id),
        ensures
            n == old(self).node(id),
            final(self).nodes@ == old(self).nodes@.update(id.0 as int, None),
    {
        let mut tmp: Option<SearchNode<G>> = None;
        let slot = &mut self.nodes[id.0];
        core::mem::swap(&mut tmp, slot);
        match tmp {
            Some(n) => n,
            None => unreached(),
        }
    }

    /// Stores a node into an existing slot.
    pub(crate) fn put_node(&mut self, id: NodeId, n: SearchNode<G>)
        requires
            id.0 < old(self).spec_len(),
        ensures
            final(self).nodes@ == old(self).nodes@.update(id.0 as int, Some(n)),
    {
        let slot = &mut self.nodes[id.0];
        *slot = Some(n);
    }

    /// Creates a parentless node holding `state`, with every legal move of
    /// `state` still unexpanded, and returns its fresh identifier.
    pub fn new_node(&mut self, state: G) -> (id: NodeId)
        requires
            old(self).wf(),
        ensures
            final(self).wf(),
            id.0 == old(self).spec_len(),
            final(self).spec_len() == old(self).spec_len() + 1,
            final(self).is_live(id),
            final(self).node(id).game_state == state,
            final(self).node(id).incoming_move is None,
            final(self).node(id).score == 0,
            final(self).node(id).visits == 0,
            final(self).node(id).unexpanded_moves@ == state.spec_moves(),
            final(self).node(id).parent is None,
            final(self).node(id).children@.len() == 0,
            forall|j: NodeId|
                old(self).is_live(j) ==> final(self).is_live(j) && final(self).node(j) == old(
                    self,
                ).node(j),
            forall|j: NodeId| #[trigger]
                final(self).is_live(j) && j != id ==> old(self).is_live(j),
    {
        let id = NodeId(self.nodes.len());
        let unexpanded_moves = state.available_moves();
        let node = SearchNode {
            game_state: state,
            incoming_move: None,
            score: 0,
            visits: 0,
            unexpanded_moves,
            parent: None,
            children: Vec::new(),
            depth: Ghost(0),
        };
        self.nodes.push(Some(node));
        proof {
            assert forall|j: NodeId| #[trigger] self.is_live(j) implies self.node_ok(j)
                && self.count_ok(j) by {
                if j != id {
                    assert(old(self).is_live(j));
                    assert(old(self).node_ok(j));
                    assert(self.node(j) == old(self).node(j));
                    lemma_node_ok_transplant(*old(self), *self, j);
                } else {
                    let n = self.node(id);
                    assert forall|k: int|
                        0 <= k < n.unexpanded_moves@.len() implies n.game_state.spec_moves()
                        .contains(#[trigger] n.unexpanded_moves@[k]) by {
                        assert(n.game_state.spec_moves()[k] == n.unexpanded_moves@[k]);
                    }
                }
            }
        }
        id
    }

    /// Materializes the unexpanded move at `idx` of node `id` as a new
    /// child: the move leaves the node's unexpanded sequence, and a fresh
    /// child node holding the successor state is appended to its children.
    pub fn expand_child(&mut self, id: NodeId, idx: usize) -> (c: NodeId)
        requires
            old(self).wf(),
            old(self).is_live(id),
            idx < old(self).node(id).unexpanded_moves@.len(),
            !is_over(old(self).node(id).game_state),
            G::finite_game(),
        ensures
            final(self).wf(),
            final(self).spec_len() == old(self).spec_len() + 1,
            c.0 == old(self).spec_len(),
            final(self).is_live(c),
            final(self).node(c).incoming_move == Some(
                old(self).node(id).unexpanded_moves@[idx as int],
            ),
            final(self).node(c).game_state == old(self).node(id).game_state.spec_apply(
                old(self).node(id).unexpanded_moves@[idx as int],
            ),
            final(self).node(c).score == 0,
            final(self).node(c).visits == 0,
            final(self).node(c).parent == Some(id),
            final(self).node(c).children@.len() == 0,
            final(self).node(c).unexpanded_moves@ == final(self).node(c).game_state.spec_moves(),
            final(self).node(id).children@ == old(self).node(id).children@.push(c),
            final(self).node(id).unexpanded_moves@ == old(self).node(
                id,
            ).unexpanded_moves@.remove(idx as int),
            final(self).node(id).game_state == old(self).node(id).game_state,
            final(self).node(id).incoming_move == old(self).node(id).incoming_move,
            final(self).node(id).score == old(self).node(id).score,
            final(self).node(id).visits == old(self).node(id).visits,
            final(self).node(id).parent == old(self).node(id).parent,
            final(self).node(id).depth == old(self).node(id).depth,
            forall|j: NodeId|
                j != id && old(self).is_live(j) ==> final(self).is_live(j) && final(self).node(
                    j,
                ) == old(self).node(j),
            forall|j: NodeId| #[trigger]
                final(self).is_live(j) && j != c ==> old(self).is_live(j),
    {
        let c = NodeId(self.nodes.len());
        let mut pn = self.take_node(id);
        let m = pn.unexpanded_moves.remove(idx);
        let child_state = pn.game_state.apply_move(&m);
        let ghost pdepth = pn.depth@;
        pn.children.push(c);
        let unexpanded_moves = child_state.available_moves();
        proof {
            old(self).node(id).game_state.move_decreases(m);
        }
        let child = SearchNode {
            game_state: child_state,
            incoming_move: Some(m),
            score: 0,
            visits: 0,
            unexpanded_moves,
            parent: Some(id),
            children: Vec::new(),
            depth: Ghost((pdepth + 1) as nat),
        };
        self.put_node(id, pn);
        self.nodes.push(Some(child));
        proof {
            self.lemma_expand_wf(*old(self), id, idx as int, c);
        }
        c
    }

    /// The well-formedness argument for `expand_child`, with `self` the tree
    /// after the expansion and `t1` the tree before it.
    proof fn lemma_expand_wf(&self, t1: SearchTree<G>, id: NodeId, idx: int, c: NodeId)
        requires
            t1.wf(),
            t1.is_live(id),
            0 <= idx < t1.node(id).unexpanded_moves@.len(),
            !is_over(t1.node(id).game_state),
            c.0 == t1.spec_len(),
            self.spec_len() == t1.spec_len() + 1,
            self.is_live(c),
            self.is_live(id),
            forall|j: NodeId|
                j != id && t1.is_live(j) ==> self.is_live(j) && self.node(j) == t1.node(j),
            forall|j: NodeId| #[trigger] self.is_live(j) && j != c ==> t1.is_live(j),
            ({
                let n1 = t1.node(id);
                let n2 = self.node(id);
                let cn = self.node(c);
                &&& n2.game_state == n1.game_state
                &&& n2.incoming_move == n1.incoming_move
                &&& n2.score == n1.score
                &&& n2.visits == n1.visits
                &&& n2.parent == n1.parent
                &&& n2.depth == n1.depth
                &&& n2.children@ == n1.children@.push(c)
                &&& n2.unexpanded_moves@ == n1.unexpanded_moves@.remove(idx)
                &&& cn.game_state == n1.game_state.spec_apply(n1.unexpanded_moves@[idx])
                &&& cn.game_state.measure() < n1.game_state.measure()
                &&& cn.incoming_move == Some(n1.unexpanded_moves@[idx])
                &&& cn.score == 0
                &&& cn.visits == 0
                &&& cn.parent == Some(id)
                &&& cn.children@.len() == 0
                &&& cn.unexpanded_moves@ == cn.game_state.spec_moves()
                &&& cn.depth@ == n1.depth@ + 1
            }),
        ensures
            self.wf(),
    {
        assert forall|i: NodeId| #[trigger] self.is_live(i) implies self.node_ok(i)
            && self.count_ok(i) by {
            let n1 = t1.node(id);
            let n2 = self.node(id);
            if i == c {
                let cn = self.node(c);
                assert forall|k: int|
                    0 <= k < cn.unexpanded_moves@.len() implies cn.game_state.spec_moves()
                    .contains(#[trigger] cn.unexpanded_moves@[k]) by {
                    assert(cn.game_state.spec_moves()[k] == cn.unexpanded_moves@[k]);
                }
                assert(self.node(id).children@.contains(c)) by {
                    assert(self.node(id).children@[n1.children@.len() as int] == c);
                }
            } else if i == id {
                assert(t1.node_ok(id));
                assert(t1.count_ok(id));
                // every old child is unchanged, every old edge still holds
                assert forall|k: int| 0 <= k < n2.children@.len() implies self.child_edge_ok(
                    id,
                    #[trigger] n2.children@[k],
                ) by {
                    if k < n1.children@.len() {
                        assert(t1.child_edge_ok(id, n1.children@[k]));
                        assert(t1.is_live(n1.children@[k]));
                        assert(n1.children@[k] != id ==> self.node(n1.children@[k]) == t1.node(
                            n1.children@[k],
                        ));
                        assert(n1.children@[k] != id) by {
                            if n1.children@[k] == id {
                                assert(t1.node(id).parent == Some(id));
                                assert(t1.node(id).depth@ == t1.node(id).depth@ + 1);
                            }
                        }
                    } else {
                        assert(n2.children@[k] == c);
                        assert(n1.game_state.spec_moves().contains(n1.unexpanded_moves@[idx]));
                    }
                }
                // the fresh child is distinct from every old child
                assert forall|k1: int, k2: int|
                    0 <= k1 < k2 < n2.children@.len() implies n2.children@[k1]
                    != n2.children@[k2] by {
                    if k2 == n1.children@.len() as int {
                        assert(t1.child_edge_ok(id, n1.children@[k1]));
                        assert(t1.is_live(n1.children@[k1]));
                        assert(n1.children@[k1].0 < t1.spec_len());
                    }
                }
                assert forall|k: int|
                    0 <= k < n2.unexpanded_moves@.len() implies n2.game_state.spec_moves()
                    .contains(#[trigger] n2.unexpanded_moves@[k]) by {
                    assert(n2.unexpanded_moves@[k] == if k < idx {
                        n1.unexpanded_moves@[k]
                    } else {
                        n1.unexpanded_moves@[k + 1]
                    });
                }
                assert(n2.parent matches Some(p) ==> self.is_live(p) && self.node(
                    p,
                ).children@.contains(id)) by {
                    match n1.parent {
                        Some(p) => {
                            assert(t1.is_live(p));
                            assert(t1.node(p).children@.contains(id));
                            assert(p != c) by {
                                assert(t1.is_live(p));
                            }
                            if p == id {
                                let kk = choose|kk: int|
                                    0 <= kk < n1.children@.len() && n1.children@[kk] == id;
                                assert(t1.child_edge_ok(id, id));
                            }
                        },
                        None => {},
                    }
                }
            } else {
                assert(t1.is_live(i));
                assert(t1.node_ok(i));
                assert(t1.count_ok(i));
                let n = self.node(i);
                assert(n == t1.node(i));
                assert forall|k: int| 0 <= k < n.children@.len() implies self.child_edge_ok(
                    i,
                    #[trigger] n.children@[k],
                ) by {
                    assert(t1.child_edge_ok(i, n.children@[k]));
                    let ck = n.children@[k];
                    assert(t1.is_live(ck));
                    if ck == id {
                        assert(self.node(id).game_state == t1.node(id).game_state);
                    } else {
                        assert(self.node(ck) == t1.node(ck));
                    }
                }
                assert(n.parent matches Some(p) ==> self.is_live(p) && self.node(
                    p,
                ).children@.contains(i)) by {
                    match n.parent {
                        Some(p) => {
                            assert(t1.is_live(p));
                            assert(t1.node(p).children@.contains(i));
                            if p == id {
                                let kk = choose|kk: int|
                                    0 <= kk < n1.children@.len() && n1.children@[kk] == i;
                                assert(n2.children@[kk] == i);
                            }
                        },
                        None => {},
                    }
                }
            }
        }
    }

    /// Adds `score` to the node's cumulative score and bumps its visit
    /// count, then does the same with the negated score at its parent, and
    /// so on up to the root: each level of the tree holds scores from the
    /// opposing player's perspective. Nodes outside the ancestor chain are
    /// untouched.
    pub fn backup(&mut self, id: NodeId, score: i64)
        requires
            old(self).wf(),
            old(self).is_live(id),
            -VALUE_LIMIT <= score <= VALUE_LIMIT,
            forall|j: NodeId| #[trigger]
                old(self).is_live(j) ==> old(self).node(j).visits < MAX_BACKUPS,
        ensures
            final(self).wf(),
            final(self).spec_len() == old(self).spec_len(),
            forall|j: NodeId| final(self).is_live(j) == old(self).is_live(j),
            forall|k: int|
                0 <= k < old(self).chain(id).len() ==> backed_up(
                    old(self).node(#[trigger] old(self).chain(id)[k]),
                    final(self).node(old(self).chain(id)[k]),
                    if k % 2 == 0 {
                        score as int
                    } else {
                        -(score as int)
                    },
                ),
            forall|j: NodeId| #[trigger]
                final(self).is_live(j) && !old(self).chain(id).contains(j)
                    ==> final(self).node(j) == old(self).node(j),
    {
        proof {
            lemma_chain(*old(self), id);
        }
        self.backup_along_chain(id, score);
    }

    /// The recursive walk behind `backup`; only the nodes on the ancestor
    /// chain need visit-count headroom.
    fn backup_along_chain(&mut self, id: NodeId, score: i64)
        requires
            old(self).wf(),
            old(self).is_live(id),
            -VALUE_LIMIT <= score <= VALUE_LIMIT,
            forall|k: int|
                0 <= k < old(self).chain(id).len() ==> old(self).node(
                    #[trigger] old(self).chain(id)[k],
                ).visits < MAX_BACKUPS,
        ensures
            final(self).wf(),
            final(self).spec_len() == old(self).spec_len(),
            forall|j: NodeId| final(self).is_live(j) == old(self).is_live(j),
            forall|k: int|
                0 <= k < old(self).chain(id).len() ==> backed_up(
                    old(self).node(#[trigger] old(self).chain(id)[k]),
                    final(self).node(old(self).chain(id)[k]),
                    if k % 2 == 0 {
                        score as int
                    } else {
                        -(score as int)
                    },
                ),
            forall|j: NodeId| #[trigger]
                final(self).is_live(j) && !old(self).chain(id).contains(j)
                    ==> final(self).node(j) == old(self).node(j),
        decreases old(self).depth_of(id),
    {
        proof {
            lemma_chain(*old(self), id);
            assert(old(self).chain(id)[0] == id);
            assert(old(self).node(id).visits < MAX_BACKUPS);
        }
        let mut n = self.take_node(id);
        let parent = n.parent;
        n.score = n.score + score;
        n.visits = n.visits + 1;
        self.put_node(id, n);
        let ghost mid = *self;
        proof {
            lemma_single_stat_update(*old(self), mid, id, score as int);
        }
        match parent {
            None => {
                proof {
                    assert(old(self).chain(id) == seq![id]);
                    assert forall|j: NodeId| #[trigger]
                        self.is_live(j) && !old(self).chain(id).contains(j) implies self.node(
                        j,
                    ) == old(self).node(j) by {
                        assert(j != id) by {
                            assert(old(self).chain(id)[0] == id);
                        }
                    }
                    assert(backed_up(old(self).node(id), self.node(id), score as int));
                }
            },
            Some(p) => {
                proof {
                    lemma_backup_pre(*old(self), mid, id, p, score as int);
                }
                let neg = -score;
                self.backup_along_chain(p, neg);
                proof {
                    lemma_backup_post(*old(self), mid, *self, id, p, score);
                }
            },
        }
    }

    /// Destroys every node; all identifiers become invalid.
    pub fn clear(&mut self)
        ensures
            final(self).wf(),
            final(self).spec_len() == 0,
            forall|j: NodeId| !final(self).is_live(j),
    {
        self.nodes = Vec::new();
    }
}

/// Two nodes that agree on everything but the parent link.
pub open spec fn same_but_parent<G: GameState>(n1: SearchNode<G>, n2: SearchNode<G>) -> bool {
    &&& n2.game_state == n1.game_state
    &&& n2.incoming_move == n1.incoming_move
    &&& n2.score == n1.score
    &&& n2.visits == n1.visits
    &&& n2.unexpanded_moves == n1.unexpanded_moves
    &&& n2.children == n1.children
    &&& n2.depth == n1.depth
}

/// Two nodes that agree on everything but the child list.
pub open spec fn same_but_children<G: GameState>(n1: SearchNode<G>, n2: SearchNode<G>) -> bool {
    &&& n2.game_state == n1.game_state
    &&& n2.incoming_move == n1.incoming_move
    &&& n2.score == n1.score
    &&& n2.visits == n1.visits
    &&& n2.unexpanded_moves == n1.unexpanded_moves
    &&& n2.parent == n1.parent
    &&& n2.depth == n1.depth
}

/// Two nodes related by one backup step: the score grew by `add`, the visit
/// count by one, and every other field is unchanged.
pub open spec fn backed_up<G: GameState>(
    n1: SearchNode<G>,
    n2: SearchNode<G>,
    add: int,
) -> bool {
    &&& n2.score == n1.score + add
    &&& n2.visits == n1.visits + 1
    &&& n2.game_state == n1.game_state
    &&& n2.incoming_move == n1.incoming_move
    &&& n2.unexpanded_moves == n1.unexpanded_moves
    &&& n2.parent == n1.parent
    &&& n2.children == n1.children
    &&& n2.depth == n1.depth
}

/// The structure of the ancestor chain of a live node in a well-formed
/// tree: it starts at the node, follows parent links, every element is
/// live, depths descend one by one (so the elements are distinct), and the
/// last element is a root.
pub proof fn lemma_chain<G: GameState>(t: SearchTree<G>, id: NodeId)
    requires
        t.wf_core(),
        t.is_live(id),
    ensures
        t.chain(id).len() >= 1,
        t.chain(id)[0] == id,
        forall|k: int| 0 <= k < t.chain(id).len() ==> t.is_live(#[trigger] t.chain(id)[k]),
        forall|k: int|
            0 <= k < t.chain(id).len() ==> t.depth_of(#[trigger] t.chain(id)[k]) + k
                == t.depth_of(id),
        forall|k1: int, k2: int|
            0 <= k1 < k2 < t.chain(id).len() ==> t.chain(id)[k1] != t.chain(id)[k2],
        forall|k: int|
            0 <= k < t.chain(id).len() - 1 ==> t.node(#[trigger] t.chain(id)[k]).parent == Some(
                t.chain(id)[k + 1],
            ),
        t.node(t.chain(id).last()).parent is None,
    decreases t.depth_of(id),
{
    let ch = t.chain(id);
    assert(t.node_ok(id));
    match t.node(id).parent {
        Some(p) => {
            assert(t.is_live(p));
            assert(t.node(p).children@.contains(id));
            let kk = choose|kk: int|
                0 <= kk < t.node(p).children@.len() && t.node(p).children@[kk] == id;
            assert(t.node_ok(p));
            assert(t.child_edge_ok(p, t.node(p).children@[kk]));
            assert(t.depth_of(p) < t.depth_of(id));
            lemma_chain(t, p);
            assert(ch == seq![id] + t.chain(p));
            let pch = t.chain(p);
            assert forall|k: int| 0 <= k < ch.len() implies t.is_live(#[trigger] ch[k])
                && t.depth_of(ch[k]) + k == t.depth_of(id) by {
                if k >= 1 {
                    assert(ch[k] == pch[k - 1]);
                }
            }
            assert forall|k1: int, k2: int| 0 <= k1 < k2 < ch.len() implies ch[k1]
                != ch[k2] by {
                assert(t.depth_of(ch[k1]) + k1 == t.depth_of(id));
                assert(t.depth_of(ch[k2]) + k2 == t.depth_of(id));
            }
            assert forall|k: int| 0 <= k < ch.len() - 1 implies t.node(
                #[trigger] ch[k],
            ).parent == Some(ch[k + 1]) by {
                if k >= 1 {
                    assert(ch[k] == pch[k - 1] && ch[k + 1] == pch[k]);
                }
            }
            assert(ch.last() == pch.last());
        },
        None => {
            assert(ch == seq![id]);
        },
    }
}

/// After one node's score and visit count were updated within bounds, the
/// tree is still well-formed and everything else is unchanged.
proof fn lemma_single_stat_update<G: GameState>(
    t0: SearchTree<G>,
    t2: SearchTree<G>,
    x: NodeId,
    add: int,
)
    requires
        t0.wf(),
        t0.is_live(x),
        -VALUE_LIMIT <= add <= VALUE_LIMIT,
        t2.spec_len() == t0.spec_len(),
        forall|j: int|
            0 <= j < t0.nodes@.len() && j != x.0 as int ==> t2.nodes@[j] == t0.nodes@[j],
        t2.is_live(x),
        backed_up(t0.node(x), t2.node(x), add),
    ensures
        t2.wf(),
        forall|j: NodeId| t2.is_live(j) == t0.is_live(j),
        forall|j: NodeId| #[trigger] t2.is_live(j) && j != x ==> t2.node(j) == t0.node(j),
{
    assert forall|j: NodeId| t2.is_live(j) == t0.is_live(j) by {
        if j != x && j.0 < t0.spec_len() {
            assert(t2.nodes@[j.0 as int] == t0.nodes@[j.0 as int]);
        }
    }
    assert forall|j: NodeId| #[trigger] t2.is_live(j) && j != x implies t2.node(j) == t0.node(
        j,
    ) by {
        assert(t2.nodes@[j.0 as int] == t0.nodes@[j.0 as int]);
    }
    assert forall|j: NodeId| #[trigger] t2.is_live(j) implies {
        let n1 = t0.node(j);
        let n2 = t2.node(j);
        &&& n2.game_state == n1.game_state
        &&& n2.incoming_move == n1.incoming_move
        &&& n2.unexpanded_moves == n1.unexpanded_moves
        &&& n2.parent == n1.parent
        &&& n2.children == n1.children
        &&& n2.depth == n1.depth
        &&& -VALUE_LIMIT * n2.visits <= n2.score <= VALUE_LIMIT * n2.visits
    } by {
        assert(t0.is_live(j));
        assert(t0.node_ok(j));
    }
    lemma_wf_after_stat_updates(t0, t2);
}

/// Before `backup` recurses to the parent: the parent's chain is what it
/// was, the updated node is not on it, and its nodes still have visit
/// headroom.
proof fn lemma_backup_pre<G: GameState>(
    t0: SearchTree<G>,
    mid: SearchTree<G>,
    id: NodeId,
    p: NodeId,
    add: int,
)
    requires
        t0.wf(),
        t0.is_live(id),
        t0.node(id).parent == Some(p),
        forall|k: int|
            0 <= k < t0.chain(id).len() ==> t0.node(#[trigger] t0.chain(id)[k]).visits
                < MAX_BACKUPS,
        mid.wf(),
        mid.spec_len() == t0.spec_len(),
        forall|j: NodeId| mid.is_live(j) == t0.is_live(j),
        forall|j: NodeId| #[trigger] mid.is_live(j) && j != id ==> mid.node(j) == t0.node(j),
        backed_up(t0.node(id), mid.node(id), add),
    ensures
        mid.is_live(p),
        mid.depth_of(p) < t0.depth_of(id),
        mid.chain(p) == t0.chain(p),
        !t0.chain(p).contains(id),
        t0.chain(id) == seq![id] + t0.chain(p),
        forall|k: int|
            0 <= k < mid.chain(p).len() ==> mid.node(#[trigger] mid.chain(p)[k]).visits
                < MAX_BACKUPS,
{
    assert(t0.node_ok(id));
    assert(t0.is_live(p));
    assert(t0.node(p).children@.contains(id));
    let kc = choose|kc: int|
        0 <= kc < t0.node(p).children@.len() && #[trigger] t0.node(p).children@[kc] == id;
    assert(t0.node_ok(p));
    assert(t0.child_edge_ok(p, id));
    assert(t0.depth_of(p) < t0.depth_of(id));
    assert(t0.chain(id) == seq![id] + t0.chain(p));
    assert forall|x: NodeId| #[trigger]
        mid.is_live(x) implies mid.node(x).parent == t0.node(x).parent && mid.node(x).depth
        == t0.node(x).depth by {
        if x != id {
            assert(mid.node(x) == t0.node(x));
        }
    }
    lemma_chain_same_shape(t0, mid, p);
    lemma_chain(t0, p);
    assert(!t0.chain(p).contains(id)) by {
        if t0.chain(p).contains(id) {
            let kx = choose|kx: int|
                0 <= kx < t0.chain(p).len() && #[trigger] t0.chain(p)[kx] == id;
            assert(t0.depth_of(t0.chain(p)[kx]) + kx == t0.depth_of(p));
        }
    }
    assert forall|k: int| 0 <= k < mid.chain(p).len() implies mid.node(
        #[trigger] mid.chain(p)[k],
    ).visits < MAX_BACKUPS by {
        assert(t0.chain(id)[k + 1] == t0.chain(p)[k]);
        assert(t0.node(t0.chain(id)[k + 1]).visits < MAX_BACKUPS);
        assert(t0.chain(p)[k] != id);
        assert(t0.is_live(t0.chain(p)[k]));
        assert(mid.node(t0.chain(p)[k]) == t0.node(t0.chain(p)[k]));
    }
}

/// After `backup` returned from the parent: the whole chain of the updated
/// node carries the alternating additions, and nothing else moved.
proof fn lemma_backup_post<G: GameState>(
    t0: SearchTree<G>,
    mid: SearchTree<G>,
    fin: SearchTree<G>,
    id: NodeId,
    p: NodeId,
    score: i64,
)
    requires
        t0.wf(),
        t0.is_live(id),
        t0.node(id).parent == Some(p),
        t0.is_live(p),
        mid.spec_len() == t0.spec_len(),
        forall|j: NodeId| mid.is_live(j) == t0.is_live(j),
        forall|j: NodeId| #[trigger] mid.is_live(j) && j != id ==> mid.node(j) == t0.node(j),
        backed_up(t0.node(id), mid.node(id), score as int),
        mid.chain(p) == t0.chain(p),
        !t0.chain(p).contains(id),
        t0.chain(id) == seq![id] + t0.chain(p),
        forall|j: NodeId| fin.is_live(j) == mid.is_live(j),
        forall|k: int|
            0 <= k < mid.chain(p).len() ==> backed_up(
                mid.node(#[trigger] mid.chain(p)[k]),
                fin.node(mid.chain(p)[k]),
                if k % 2 == 0 {
                    -(score as int)
                } else {
                    score as int
                },
            ),
        forall|j: NodeId| #[trigger]
            fin.is_live(j) && !mid.chain(p).contains(j) ==> fin.node(j) == mid.node(j),
    ensures
        forall|k: int|
            0 <= k < t0.chain(id).len() ==> backed_up(
                t0.node(#[trigger] t0.chain(id)[k]),
                fin.node(t0.chain(id)[k]),
                if k % 2 == 0 {
                    score as int
                } else {
                    -(score as int)
                },
            ),
        forall|j: NodeId| #[trigger]
            fin.is_live(j) && !t0.chain(id).contains(j) ==> fin.node(j) == t0.node(j),
{
    let ch = t0.chain(id);
    let pch = t0.chain(p);
    assert forall|k: int| 0 <= k < ch.len() implies backed_up(
        t0.node(#[trigger] ch[k]),
        fin.node(ch[k]),
        if k % 2 == 0 {
            score as int
        } else {
            -(score as int)
        },
    ) by {
        if k == 0 {
            assert(ch[0] == id);
            assert(fin.is_live(id));
            assert(fin.node(id) == mid.node(id));
            assert(backed_up(t0.node(id), fin.node(id), score as int));
        } else {
            assert(ch[k] == pch[k - 1]);
            assert(pch[k - 1] != id);
            assert(mid.is_live(pch[k - 1])) by {
                lemma_chain(t0, p);
            }
            assert(mid.node(pch[k - 1]) == t0.node(pch[k - 1]));
            assert(backed_up(
                mid.node(pch[k - 1]),
                fin.node(pch[k - 1]),
                if (k - 1) % 2 == 0 {
                    -(score as int)
                } else {
                    score as int
                },
            ));
        }
    }
    assert forall|j: NodeId| #[trigger]
        fin.is_live(j) && !ch.contains(j) implies fin.node(j) == t0.node(j) by {
        assert(j != id) by {
            assert(ch[0] == id);
        }
        assert(!pch.contains(j)) by {
            if pch.contains(j) {
                let kx = choose|kx: int| 0 <= kx < pch.len() && #[trigger] pch[kx] == j;
                assert(ch[kx + 1] == j);
            }
        }
        assert(fin.node(j) == mid.node(j));
    }
}

/// The ancestor chain only looks at liveness, parent links and depths, so
/// it is unchanged by updates that keep those.
/// The ancestor chain of a node the tree already held is unchanged when
/// the tree grows: new nodes never appear on it, and the old nodes kept
/// their parent links and depths.
pub proof fn lemma_chain_grow<G: GameState>(t1: SearchTree<G>, t2: SearchTree<G>, j: NodeId)
    requires
        t1.wf_core(),
        t1.is_live(j),
        forall|y: NodeId| t1.is_live(y) ==> t2.is_live(y),
        forall|y: NodeId| #[trigger]
            t1.is_live(y) ==> t2.node(y).parent == t1.node(y).parent && t2.node(y).depth
                == t1.node(y).depth,
    ensures
        t2.chain(j) == t1.chain(j),
    decreases t1.depth_of(j),
{
    assert(t2.is_live(j));
    assert(t2.depth_of(j) == t1.depth_of(j));
    assert(t1.node_ok(j));
    match t1.node(j).parent {
        Some(p) => {
            assert(t1.is_live(p));
            assert(t1.node(p).children@.contains(j));
            let kc = choose|kc: int|
                0 <= kc < t1.node(p).children@.len() && #[trigger] t1.node(p).children@[kc]
                    == j;
            assert(t1.node_ok(p));
            assert(t1.child_edge_ok(p, j));
            assert(t1.depth_of(p) < t1.depth_of(j));
            assert(t2.is_live(p) && t2.depth_of(p) == t1.depth_of(p));
            assert(t1.chain(j) == seq![j] + t1.chain(p));
            assert(t2.chain(j) == seq![j] + t2.chain(p));
            lemma_chain_grow(t1, t2, p);
        },
        None => {
            assert(t1.chain(j) == seq![j]);
            assert(t2.chain(j) == seq![j]);
        },
    }
}

pub proof fn lemma_chain_same_shape<G: GameState>(
    t1: SearchTree<G>,
    t2: SearchTree<G>,
    j: NodeId,
)
    requires
        forall|x: NodeId| t2.is_live(x) == t1.is_live(x),
        forall|x: NodeId| #[trigger]
            t2.is_live(x) ==> t2.node(x).parent == t1.node(x).parent && t2.node(x).depth == t1
                .node(x).depth,
        t2.is_live(j),
    ensures
        t2.chain(j) == t1.chain(j),
    decreases t2.depth_of(j),
{
    assert(t2.depth_of(j) == t1.depth_of(j));
    match t2.node(j).parent {
        Some(p) => {
            if t2.is_live(p) && t2.depth_of(p) < t2.depth_of(j) {
                assert(t2.depth_of(p) == t1.depth_of(p));
                lemma_chain_same_shape(t1, t2, p);
            }
        },
        None => {},
    }
}

/// If liveness is unchanged and every node kept its shape (everything but
/// score and visits) while scores stayed within the per-visit bound, the
/// tree is still well-formed.
proof fn lemma_wf_after_stat_updates<G: GameState>(t1: SearchTree<G>, t2: SearchTree<G>)
    requires
        t1.wf(),
        t2.spec_len() == t1.spec_len(),
        forall|j: NodeId| t2.is_live(j) == t1.is_live(j),
        forall|j: NodeId| #[trigger]
            t2.is_live(j) ==> {
                let n1 = t1.node(j);
                let n2 = t2.node(j);
                &&& n2.game_state == n1.game_state
                &&& n2.incoming_move == n1.incoming_move
                &&& n2.unexpanded_moves == n1.unexpanded_moves
                &&& n2.parent == n1.parent
                &&& n2.children == n1.children
                &&& n2.depth == n1.depth
                &&& -VALUE_LIMIT * n2.visits <= n2.score <= VALUE_LIMIT * n2.visits
            },
    ensures
        t2.wf(),
{
    assert forall|i: NodeId| #[trigger] t2.is_live(i) implies t2.node_ok(i) && t2.count_ok(
        i,
    ) by {
        assert(t1.is_live(i));
        assert(t1.node_ok(i));
        assert(t1.count_ok(i));
        let n = t2.node(i);
        assert forall|k: int| 0 <= k < n.children@.len() implies t2.child_edge_ok(
            i,
            #[trigger] n.children@[k],
        ) by {
            assert(t1.child_edge_ok(i, t1.node(i).children@[k]));
            assert(t2.is_live(n.children@[k]));
        }
        assert(n.parent matches Some(p) ==> t2.is_live(p) && t2.node(p).children@.contains(i))
            by {
            match n.parent {
                Some(p) => {
                    assert(t1.is_live(p));
                    assert(t1.node(p).children@.contains(i));
                },
                None => {},
            }
        }
    }
}

/// `node_ok` transfers between trees that agree on the nodes it looks at.
proof fn lemma_node_ok_transplant<G: GameState>(t1: SearchTree<G>, t2: SearchTree<G>, i: NodeId)
    requires
        t1.is_live(i),
        t2.is_live(i),
        t1.node_ok(i),
        t2.node(i) == t1.node(i),
        forall|j: NodeId| #[trigger] t1.is_live(j) ==> t2.is_live(j) && t2.node(j) == t1.node(j),
    ensures
        t2.node_ok(i),
{
    let n = t1.node(i);
    assert forall|k: int| 0 <= k < n.children@.len() implies t2.child_edge_ok(
        i,
        #[trigger] n.children@[k],
    ) by {
        assert(t1.child_edge_ok(i, n.children@[k]));
    }
}

} // verus!
