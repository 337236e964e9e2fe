//! Detaching and destroying subtrees of a `SearchTree`.
//!
//! `detach` turns a node into a root without touching its subtree, leaving
//! the ex-parent one child short of its move count; `remove_subtree` then
//! destroys a root and all its descendants by marking the subtree and
//! sweeping the marked slots, which restores the full tree invariant.

use vstd::prelude::*;
use vstd::pervasive::unreached;
use crate::game_state::GameState;
use crate::tree::{lemma_chain, same_but_children, same_but_parent, NodeId, SearchNode, SearchTree};
use crate::ucb::VALUE_LIMIT;

verus! {

impl<G: GameState> SearchTree<G> {
    /// Removes `id` from its parent's child list without destroying it: the
    /// node becomes a root, its own subtree intact. The ex-parent is then
    /// one child short of its move count (`wf_except`) until it is removed.
    pub fn detach(&mut self, id: NodeId)
        requires
            old(self).wf(),
            old(self).is_live(id),
        ensures
            final(self).spec_len() == old(self).spec_len(),
            forall|j: NodeId| final(self).is_live(j) == old(self).is_live(j),
            final(self).node(id).parent is None,
            same_but_parent(old(self).node(id), final(self).node(id)),
            old(self).node(id).parent is None ==> *final(self) == *old(self),
            old(self).node(id).parent matches Some(p) ==> {
                &&& final(self).wf_except(p)
                &&& same_but_children(old(self).node(p), final(self).node(p))
                &&& exists|k: int|
                    0 <= k < old(self).node(p).children@.len() && old(self).node(
                        p,
                    ).children@[k] == id && final(self).node(p).children@ == old(self).node(
                        p,
                    ).children@.remove(k)
                &&& forall|j: NodeId|
                    j != id && j != p && old(self).is_live(j) ==> final(self).node(j) == old(
                        self,
                    ).node(j)
            },
    {
        let parent_opt = self.get(id).parent;
        match parent_opt {
            None => {},
            Some(p) => {
                proof {
                    assert(old(self).node_ok(id));
                    assert(old(self).is_live(p));
                    assert(old(self).node(p).children@.contains(id));
                    assert(p != id) by {
                        if p == id {
                            let kk = choose|kk: int|
                                0 <= kk < old(self).node(p).children@.len()
                                    && old(self).node(p).children@[kk] == id;
                            assert(old(self).node_ok(p));
                            assert(old(self).child_edge_ok(id, id));
                        }
                    }
                }
                let mut i: usize = 0;
                let cnt = self.get(p).children.len();
                loop
                    invariant_except_break
                        self == old(self),
                        old(self).wf(),
                        old(self).is_live(p),
                        old(self).is_live(id),
                        cnt == old(self).node(p).children@.len(),
                        0 <= i < old(self).node(p).children@.len(),
                        forall|kk: int|
                            0 <= kk < i ==> old(self).node(p).children@[kk] != id,
                        old(self).node(p).children@.contains(id),
                    ensures
                        self == old(self),
                        0 <= i < old(self).node(p).children@.len(),
                        old(self).node(p).children@[i as int] == id,
                    decreases old(self).node(p).children@.len() - i,
                {
                    proof {
                        assert(i < old(self).node(p).children@.len()) by {
                            let kk = choose|kk: int|
                                0 <= kk < old(self).node(p).children@.len() && old(self).node(
                                    p,
                                ).children@[kk] == id;
                        }
                    }
                    let c = self.get(p).children[i];
                    if c == id {
                        break ;
                    }
                    i = i + 1;
                    proof {
                        assert(i < old(self).node(p).children@.len()) by {
                            let kk = choose|kk: int|
                                0 <= kk < old(self).node(p).children@.len() && old(self).node(
                                    p,
                                ).children@[kk] == id;
                            assert(kk >= i);
                        }
                    }
                }
                let mut pn = self.take_node(p);
                pn.children.remove(i);
                self.put_node(p, pn);
                let mut n = self.take_node(id);
                n.parent = None;
                self.put_node(id, n);
                proof {
                    self.lemma_detach_wf(*old(self), id, p, i as int);
                }
            },
        }
    }

    /// The well-formedness argument for `detach`, with `self` the tree after
    /// the detachment and `t1` the tree before it.
    proof fn lemma_detach_wf(&self, t1: SearchTree<G>, id: NodeId, p: NodeId, k: int)
        requires
            t1.wf(),
            t1.is_live(id),
            t1.is_live(p),
            id != p,
            t1.node(id).parent == Some(p),
            0 <= k < t1.node(p).children@.len(),
            t1.node(p).children@[k] == id,
            self.spec_len() == t1.spec_len(),
            forall|j: NodeId| self.is_live(j) == t1.is_live(j),
            self.node(id).parent is None,
            same_but_parent(t1.node(id), self.node(id)),
            same_but_children(t1.node(p), self.node(p)),
            self.node(p).children@ == t1.node(p).children@.remove(k),
            forall|j: NodeId|
                j != id && j != p && t1.is_live(j) ==> self.node(j) == t1.node(j),
        ensures
            self.wf_except(p),
    {
        let pc1 = t1.node(p).children@;
        let pc2 = self.node(p).children@;
        assert forall|i: NodeId| #[trigger] self.is_live(i) implies self.node_ok(i) by {
            assert(t1.is_live(i));
            assert(t1.node_ok(i));
            let n = self.node(i);
            assert forall|kk: int| 0 <= kk < n.children@.len() implies self.child_edge_ok(
                i,
                #[trigger] n.children@[kk],
            ) by {
                let c = if i == p {
                    assert(pc2[kk] == if kk < k {
                        pc1[kk]
                    } else {
                        pc1[kk + 1]
                    });
                    n.children@[kk]
                } else {
                    n.children@[kk]
                };
                assert(t1.child_edge_ok(i, c));
                assert(c != id) by {
                    if c == id {
                        assert(t1.node(id).parent == Some(i));
                        if i == p {
                            assert(forall|a: int, b: int|
                                0 <= a < b < pc1.len() ==> pc1[a] != pc1[b]);
                            if kk < k {
                                assert(pc1[kk] == id && pc1[k] == id);
                            } else {
                                assert(pc1[kk + 1] == id && pc1[k] == id);
                            }
                        }
                    }
                }
                assert(self.node(c) == t1.node(c) || c == p);
                assert(self.node(i).game_state == t1.node(i).game_state);
                assert(self.node(i).depth@ == t1.node(i).depth@);
            }
            assert forall|k1: int, k2: int|
                0 <= k1 < k2 < n.children@.len() implies n.children@[k1] != n.children@[k2] by {
                if i == p {
                    assert(pc2[k1] == if k1 < k {
                        pc1[k1]
                    } else {
                        pc1[k1 + 1]
                    });
                    assert(pc2[k2] == if k2 < k {
                        pc1[k2]
                    } else {
                        pc1[k2 + 1]
                    });
                }
            }
            assert(n.parent matches Some(q) ==> self.is_live(q) && self.node(
                q,
            ).children@.contains(i)) by {
                match n.parent {
                    Some(q) => {
                        assert(n.parent == t1.node(i).parent) by {
                            if i == id {
                                assert(self.node(id).parent is None);
                            }
                        }
                        assert(t1.is_live(q));
                        assert(t1.node(q).children@.contains(i));
                        if q == p {
                            assert(i != id) by {
                                if i == id {
                                    assert(self.node(id).parent is None);
                                }
                            }
                            let kk = choose|kk: int|
                                0 <= kk < pc1.len() && pc1[kk] == i;
                            assert(kk != k);
                            if kk < k {
                                assert(pc2[kk] == i);
                            } else {
                                assert(pc2[kk - 1] == i);
                            }
                        }
                    },
                    None => {},
                }
            }
        }
        assert forall|i: NodeId| #[trigger] self.is_live(i) && i != p implies self.count_ok(
            i,
        ) by {
            assert(t1.count_ok(i));
        }
    }

    /// Destroys `id` and its whole subtree. The node must already be a
    /// root (detached or created as one); every identifier in the subtree
    /// becomes invalid, everything outside it is untouched.
    pub fn remove_subtree(&mut self, id: NodeId)
        requires
            old(self).wf_except(id),
            old(self).is_live(id),
            old(self).node(id).parent is None,
        ensures
            final(self).wf(),
            final(self).spec_len() == old(self).spec_len(),
            forall|j: NodeId|
                final(self).is_live(j) <==> (old(self).is_live(j) && !old(self).in_subtree(
                    j,
                    id,
                )),
            forall|j: NodeId| #[trigger]
                final(self).is_live(j) ==> final(self).node(j) == old(self).node(j),
    {
        proof {
            lemma_chain(*old(self), id);
            assert(old(self).chain(id)[0] == id);
        }
        self.remove_subtree_inner(id, Ghost(id));
    }

    /// The sweep behind `remove_subtree`. The one node whose move count may
    /// be short, `x`, must lie inside the removed subtree, so that the full
    /// invariant holds afterwards.
    pub(crate) fn remove_subtree_inner(&mut self, id: NodeId, x: Ghost<NodeId>)
        requires
            old(self).wf_except(x@),
            old(self).is_live(id),
            old(self).node(id).parent is None,
            old(self).in_subtree(x@, id),
        ensures
            final(self).wf(),
            final(self).spec_len() == old(self).spec_len(),
            forall|j: NodeId|
                final(self).is_live(j) <==> (old(self).is_live(j) && !old(self).in_subtree(
                    j,
                    id,
                )),
            forall|j: NodeId| #[trigger]
                final(self).is_live(j) ==> final(self).node(j) == old(self).node(j),
    {
        let n = self.nodes.len();
        let mut marked: Vec<bool> = Vec::new();
        while marked.len() < n
            invariant
                marked@.len() <= n,
                forall|j: int| 0 <= j < marked@.len() ==> !marked@[j],
            decreases n - marked@.len(),
        {
            marked.push(false);
        }
        let ghost pre = marked@;
        marked[id.0] = true;
        let mut work: Vec<NodeId> = Vec::new();
        work.push(id);
        proof {
            lemma_count_true_all_false(pre);
            lemma_count_true_update(pre, id.0 as int);
            assert(count_true(marked@) == 1);
            assert(self.chain(id).contains(id)) by {
                lemma_chain(*old(self), id);
                assert(self.chain(id)[0] == id);
            }
        }
        while work.len() > 0
            invariant
                old(self).wf_except(x@),
                old(self).is_live(id),
                old(self).node(id).parent is None,
                *self == *old(self),
                n == self.spec_len(),
                marked@.len() == n,
                marked@[id.0 as int],
                forall|kk: int|
                    0 <= kk < work@.len() ==> {
                        let w = #[trigger] work@[kk];
                        &&& w.0 < n
                        &&& old(self).is_live(w)
                        &&& marked@[w.0 as int]
                    },
                forall|j: NodeId|
                    j.0 < n && #[trigger] marked@[j.0 as int] ==> old(self).is_live(j) && old(
                        self,
                    ).in_subtree(j, id),
                forall|x: NodeId, kk: int|
                    x.0 < n && marked@[x.0 as int] && old(self).is_live(x) && !work@.contains(x)
                        && 0 <= kk < old(self).node(x).children@.len() ==> marked@[(
                    #[trigger] old(self).node(x).children@[kk]).0 as int],
                count_true(marked@) <= n,
            decreases 2 * (n - count_true(marked@)) + work@.len(),
        {
            proof {
                lemma_count_true_bound(marked@);
            }
            let ghost m0: int = 2 * (n - count_true(marked@)) + work@.len();
            let ghost work0 = work@;
            let w = match work.pop() {
                Some(w) => w,
                None => unreached(),
            };
            proof {
                assert forall|x: NodeId, kk: int|
                    x.0 < n && marked@[x.0 as int] && old(self).is_live(x) && !work@.contains(x)
                        && x != w && 0 <= kk < old(self).node(x).children@.len() implies marked@[(
                    #[trigger] old(self).node(x).children@[kk]).0 as int] by {
                    assert(!work0.contains(x)) by {
                        if work0.contains(x) {
                            let ki = choose|ki: int|
                                0 <= ki < work0.len() && #[trigger] work0[ki] == x;
                            if ki < work0.len() - 1 {
                                assert(work@[ki] == x);
                            }
                        }
                    }
                }
            }
            let cn = self.get(w).children.len();
            let mut ci: usize = 0;
            while ci < cn
                invariant
                    old(self).wf_except(x@),
                    old(self).is_live(id),
                    old(self).node(id).parent is None,
                    *self == *old(self),
                    n == self.spec_len(),
                    marked@.len() == n,
                    marked@[id.0 as int],
                    old(self).is_live(w),
                    marked@[w.0 as int],
                    cn == old(self).node(w).children@.len(),
                    0 <= ci <= cn,
                    forall|kk: int|
                        0 <= kk < work@.len() ==> {
                            let x = #[trigger] work@[kk];
                            &&& x.0 < n
                            &&& old(self).is_live(x)
                            &&& marked@[x.0 as int]
                        },
                    forall|j: NodeId|
                        j.0 < n && #[trigger] marked@[j.0 as int] ==> old(self).is_live(j)
                            && old(self).in_subtree(j, id),
                    forall|x: NodeId, kk: int|
                        x.0 < n && marked@[x.0 as int] && old(self).is_live(x)
                            && !work@.contains(x) && x != w && 0 <= kk < old(self).node(
                            x,
                        ).children@.len() ==> marked@[(
                        #[trigger] old(self).node(x).children@[kk]).0 as int],
                    forall|kk: int|
                        0 <= kk < ci ==> marked@[(
                        #[trigger] old(self).node(w).children@[kk]).0 as int],
                    count_true(marked@) <= n,
                    2 * (n - count_true(marked@)) + work@.len() < m0,
                decreases cn - ci,
            {
                let c = self.get(w).children[ci];
                proof {
                    assert(old(self).node_ok(w));
                    assert(old(self).child_edge_ok(w, c));
                }
                if !marked[c.0] {
                    let ghost marked0 = marked@;
                    let ghost workin0 = work@;
                    proof {
                        lemma_count_true_update(marked@, c.0 as int);
                        assert(old(self).in_subtree(c, id)) by {
                            assert(old(self).chain(c) == seq![c] + old(self).chain(w)) by {
                                assert(old(self).depth_of(w) < old(self).depth_of(c));
                            }
                            assert(old(self).chain(w).contains(id));
                            let kk = choose|kk: int|
                                0 <= kk < old(self).chain(w).len() && #[trigger] old(
                                    self,
                                ).chain(w)[kk] == id;
                            assert((seq![c] + old(self).chain(w))[kk + 1] == id);
                        }
                    }
                    marked[c.0] = true;
                    work.push(c);
                    proof {
                        assert forall|x: NodeId, kk: int|
                            x.0 < n && marked@[x.0 as int] && old(self).is_live(x)
                                && !work@.contains(x) && x != w && 0 <= kk < old(self).node(
                                x,
                            ).children@.len() implies marked@[(
                            #[trigger] old(self).node(x).children@[kk]).0 as int] by {
                            assert(x != c) by {
                                assert(work@[work@.len() - 1] == c);
                            }
                            assert(marked0[x.0 as int]);
                            assert(!workin0.contains(x)) by {
                                if workin0.contains(x) {
                                    let ki = choose|ki: int|
                                        0 <= ki < workin0.len() && #[trigger] workin0[ki] == x;
                                    assert(work@[ki] == x);
                                }
                            }
                            assert(marked0[old(self).node(x).children@[kk].0 as int]);
                        }
                        lemma_count_true_bound(marked@);
                    }
                }
                ci = ci + 1;
            }
            proof {
                assert forall|x: NodeId, kk: int|
                    x.0 < n && marked@[x.0 as int] && old(self).is_live(x) && !work@.contains(
                        x,
                    ) && 0 <= kk < old(self).node(x).children@.len() implies marked@[(
                    #[trigger] old(self).node(x).children@[kk]).0 as int] by {
                    if x == w {
                        assert(marked@[old(self).node(w).children@[kk].0 as int]);
                    }
                }
            }
        }
        // every live node of the subtree is marked, everything marked is in
        // the subtree; now free the marked slots
        proof {
            assert forall|j: NodeId|
                old(self).is_live(j) && old(self).in_subtree(j, id) implies j.0 < n
                    && marked@[j.0 as int] by {
                lemma_marked_complete(*old(self), marked@, id, j);
            }
        }
        let mut i: usize = 0;
        while i < n
            invariant
                n == self.spec_len(),
                self.spec_len() == old(self).spec_len(),
                marked@.len() == n,
                0 <= i <= n,
                forall|j: int|
                    0 <= j < i ==> self.nodes@[j] == if marked@[j] {
                        None::<SearchNode<G>>
                    } else {
                        old(self).nodes@[j]
                    },
                forall|j: int| i <= j < n ==> self.nodes@[j] == old(self).nodes@[j],
            decreases n - i,
        {
            if marked[i] {
                let slot = &mut self.nodes[i];
                *slot = None;
            }
            i = i + 1;
        }
        proof {
            assert forall|j: NodeId|
                final(self).is_live(j) <==> (old(self).is_live(j) && !old(self).in_subtree(
                    j,
                    id,
                )) by {
                if j.0 < n {
                    if marked@[j.0 as int] {
                        assert(!final(self).is_live(j));
                    } else {
                        if old(self).is_live(j) && old(self).in_subtree(j, id) {
                            lemma_marked_complete(*old(self), marked@, id, j);
                        }
                    }
                }
            }
            assert forall|i2: NodeId| #[trigger] self.is_live(i2) implies self.node_ok(i2)
                && self.count_ok(i2) by {
                assert(old(self).is_live(i2));
                assert(old(self).node_ok(i2));
                assert(!marked@[i2.0 as int]);
                assert(i2 != x@) by {
                    lemma_marked_complete(*old(self), marked@, id, x@);
                }
                assert(old(self).count_ok(i2));
                let nn = self.node(i2);
                assert(nn == old(self).node(i2));
                assert forall|kk: int| 0 <= kk < nn.children@.len() implies self.child_edge_ok(
                    i2,
                    #[trigger] nn.children@[kk],
                ) by {
                    let c = nn.children@[kk];
                    assert(old(self).child_edge_ok(i2, c));
                    assert(!marked@[c.0 as int]) by {
                        if marked@[c.0 as int] {
                            assert(old(self).in_subtree(c, id));
                            assert(old(self).chain(c) == seq![c] + old(self).chain(i2)) by {
                                assert(old(self).depth_of(i2) < old(self).depth_of(c));
                            }
                            assert(c != id) by {
                                assert(old(self).node(c).parent == Some(i2));
                            }
                            let kx = choose|kx: int|
                                0 <= kx < old(self).chain(c).len() && #[trigger] old(
                                    self,
                                ).chain(c)[kx] == id;
                            assert(kx >= 1);
                            assert(old(self).chain(i2)[kx - 1] == id);
                            lemma_marked_complete(*old(self), marked@, id, i2);
                        }
                    }
                    assert(self.is_live(c));
                    assert(self.node(c) == old(self).node(c));
                }
                assert(nn.parent matches Some(q) ==> self.is_live(q) && self.node(
                    q,
                ).children@.contains(i2)) by {
                    match nn.parent {
                        Some(q) => {
                            assert(old(self).is_live(q));
                            assert(old(self).node(q).children@.contains(i2));
                            assert(!marked@[q.0 as int]) by {
                                if marked@[q.0 as int] {
                                    let kx = choose|kx: int|
                                        0 <= kx < old(self).node(q).children@.len()
                                            && #[trigger] old(self).node(q).children@[kx]
                                            == i2;
                                    assert(marked@[i2.0 as int]);
                                }
                            }
                            assert(self.is_live(q));
                        },
                        None => {},
                    }
                }
            }
        }
    }

}

/// How many entries of a boolean sequence are set.
pub open spec fn count_true(s: Seq<bool>) -> nat
    decreases s.len(),
{
    if s.len() == 0 {
        0
    } else {
        count_true(s.drop_last()) + if s.last() {
            1nat
        } else {
            0nat
        }
    }
}

/// A sequence with no entry set has count zero.
pub proof fn lemma_count_true_all_false(s: Seq<bool>)
    requires
        forall|j: int| 0 <= j < s.len() ==> !s[j],
    ensures
        count_true(s) == 0,
    decreases s.len(),
{
    if s.len() > 0 {
        lemma_count_true_all_false(s.drop_last());
    }
}

/// Setting an unset entry raises `count_true` by one.
pub proof fn lemma_count_true_update(s: Seq<bool>, j: int)
    requires
        0 <= j < s.len(),
        !s[j],
    ensures
        count_true(s.update(j, true)) == count_true(s) + 1,
    decreases s.len(),
{
    let t = s.update(j, true);
    if j == s.len() - 1 {
        assert(t.drop_last() =~= s.drop_last());
    } else {
        assert(t.drop_last() =~= s.drop_last().update(j, true));
        lemma_count_true_update(s.drop_last(), j);
    }
}

/// `count_true` never exceeds the length.
pub proof fn lemma_count_true_bound(s: Seq<bool>)
    ensures
        count_true(s) <= s.len(),
    decreases s.len(),
{
    if s.len() > 0 {
        lemma_count_true_bound(s.drop_last());
    }
}

/// If the set of marked nodes contains `id` and is closed under taking
/// children, it contains every live node whose ancestor chain passes
/// through `id`.
pub proof fn lemma_marked_complete<G: GameState>(
    t: SearchTree<G>,
    marked: Seq<bool>,
    id: NodeId,
    j: NodeId,
)
    requires
        t.wf_core(),
        marked.len() == t.spec_len(),
        id.0 < marked.len(),
        marked[id.0 as int],
        forall|x: NodeId, kk: int|
            x.0 < marked.len() && marked[x.0 as int] && t.is_live(x) && 0 <= kk < t.node(
                x,
            ).children@.len() ==> marked[(#[trigger] t.node(x).children@[kk]).0 as int],
        t.is_live(j),
        t.chain(j).contains(id),
    ensures
        j.0 < marked.len(),
        marked[j.0 as int],
    decreases t.depth_of(j),
{
    if j != id {
        assert(t.node_ok(j));
        match t.node(j).parent {
            Some(p) => {
                assert(t.is_live(p));
                assert(t.node(p).children@.contains(j));
                let kc = choose|kc: int|
                    0 <= kc < t.node(p).children@.len() && #[trigger] t.node(p).children@[kc]
                        == j;
                assert(t.node_ok(p));
                assert(t.child_edge_ok(p, t.node(p).children@[kc]));
                assert(t.depth_of(p) < t.depth_of(j));
                assert(t.chain(j) == seq![j] + t.chain(p));
                let kk = choose|kk: int|
                    0 <= kk < t.chain(j).len() && #[trigger] t.chain(j)[kk] == id;
                assert(kk >= 1);
                assert(t.chain(p)[kk - 1] == id);
                lemma_marked_complete(t, marked, id, p);
            },
            None => {
                assert(t.chain(j) == seq![j]);
                let kk = choose|kk: int|
                    0 <= kk < t.chain(j).len() && #[trigger] t.chain(j)[kk] == id;
                assert(t.chain(j)[kk] == j);
            },
        }
    }
}

/// The ancestor chain of `j` is unchanged between two trees that agree on
/// liveness and on every node's depth, and on every parent link except the
/// one of a node `c` that the chain does not pass through.
pub proof fn lemma_chain_avoid<G: GameState>(
    t0: SearchTree<G>,
    t1: SearchTree<G>,
    c: NodeId,
    j: NodeId,
)
    requires
        forall|y: NodeId| t1.is_live(y) == t0.is_live(y),
        forall|y: NodeId| #[trigger] t0.is_live(y) ==> t1.node(y).depth == t0.node(y).depth,
        forall|y: NodeId| #[trigger]
            t0.is_live(y) && y != c ==> t1.node(y).parent == t0.node(y).parent,
        t0.is_live(j),
        !t0.chain(j).contains(c),
    ensures
        t1.chain(j) == t0.chain(j),
    decreases t0.depth_of(j),
{
    assert(j != c) by {
        assert(t0.chain(j)[0] == j);
    }
    assert(t1.depth_of(j) == t0.depth_of(j));
    match t0.node(j).parent {
        Some(q) => {
            assert(t1.node(j).parent == t0.node(j).parent);
            if t0.is_live(q) && t0.depth_of(q) < t0.depth_of(j) {
                assert(t0.chain(j) == seq![j] + t0.chain(q));
                assert(!t0.chain(q).contains(c)) by {
                    if t0.chain(q).contains(c) {
                        let kx = choose|kx: int|
                            0 <= kx < t0.chain(q).len() && #[trigger] t0.chain(q)[kx] == c;
                        assert(t0.chain(j)[kx + 1] == c);
                    }
                }
                lemma_chain_avoid(t0, t1, c, q);
                assert(t1.depth_of(q) == t0.depth_of(q));
                assert(t1.chain(j) == seq![j] + t1.chain(q));
            } else {
                assert(t0.chain(j) == seq![j]);
                assert(t1.depth_of(q) == t0.depth_of(q));
                assert(t1.chain(j) == seq![j]);
            }
        },
        None => {
            assert(t1.node(j).parent == t0.node(j).parent);
            assert(t0.chain(j) == seq![j]);
            assert(t1.chain(j) == seq![j]);
        },
    }
}

/// How detaching `c` from its parent `p` changes ancestor chains: a chain
/// reaches a node `x` above `c` afterwards exactly when it reached `x`
/// before without passing through `c`.
pub proof fn lemma_detach_chain<G: GameState>(
    t0: SearchTree<G>,
    t1: SearchTree<G>,
    c: NodeId,
    p: NodeId,
    x: NodeId,
    j: NodeId,
)
    requires
        t0.wf(),
        t0.is_live(c),
        t0.node(c).parent == Some(p),
        t1.spec_len() == t0.spec_len(),
        forall|y: NodeId| t1.is_live(y) == t0.is_live(y),
        same_but_parent(t0.node(c), t1.node(c)),
        t1.node(c).parent is None,
        same_but_children(t0.node(p), t1.node(p)),
        forall|y: NodeId|
            y != c && y != p && t0.is_live(y) ==> #[trigger] t1.node(y) == t0.node(y),
        t0.depth_of(x) < t0.depth_of(c),
        t1.is_live(j),
    ensures
        t1.chain(j).contains(x) <==> (t0.chain(j).contains(x) && !t0.chain(j).contains(c)),
    decreases t0.depth_of(j),
{
    assert(t0.is_live(j));
    assert(t0.node_ok(j));
    assert(t0.is_live(p) && t0.depth_of(c) == t0.depth_of(p) + 1) by {
        assert(t0.node_ok(c));
        assert(t0.node(p).children@.contains(c));
        let kc = choose|kc: int|
            0 <= kc < t0.node(p).children@.len() && #[trigger] t0.node(p).children@[kc] == c;
        assert(t0.node_ok(p));
        assert(t0.child_edge_ok(p, c));
    }
    if j == c {
        assert(t1.chain(c) == seq![c]);
        assert(x != c);
        assert(!t1.chain(c).contains(x)) by {
            if t1.chain(c).contains(x) {
                let kx = choose|kx: int|
                    0 <= kx < t1.chain(c).len() && #[trigger] t1.chain(c)[kx] == x;
            }
        }
        assert(t0.chain(c).contains(c)) by {
            assert(t0.chain(c)[0] == c);
        }
    } else {
        assert(t1.node(j).parent == t0.node(j).parent && t1.node(j).depth == t0.node(j).depth)
            by {
            if j == p {
            } else {
                assert(t1.node(j) == t0.node(j));
            }
        }
        assert(t1.depth_of(j) == t0.depth_of(j));
        match t0.node(j).parent {
            None => {
                assert(t0.chain(j) == seq![j]);
                assert(t1.chain(j) == seq![j]);
                assert(t0.chain(j).contains(x) == (j == x)) by {
                    if t0.chain(j).contains(x) {
                        let kx = choose|kx: int|
                            0 <= kx < t0.chain(j).len() && #[trigger] t0.chain(j)[kx] == x;
                    }
                    if j == x {
                        assert(t0.chain(j)[0] == x);
                    }
                }
                assert(t1.chain(j).contains(x) == (j == x)) by {
                    if t1.chain(j).contains(x) {
                        let kx = choose|kx: int|
                            0 <= kx < t1.chain(j).len() && #[trigger] t1.chain(j)[kx] == x;
                    }
                    if j == x {
                        assert(t1.chain(j)[0] == x);
                    }
                }
                assert(!t0.chain(j).contains(c)) by {
                    if t0.chain(j).contains(c) {
                        let kx = choose|kx: int|
                            0 <= kx < t0.chain(j).len() && #[trigger] t0.chain(j)[kx] == c;
                        assert(j == c);
                    }
                }
            },
            Some(q) => {
                assert(t0.is_live(q) && t0.node(q).children@.contains(j));
                assert(t0.depth_of(q) < t0.depth_of(j)) by {
                    let kc = choose|kc: int|
                        0 <= kc < t0.node(q).children@.len() && #[trigger] t0.node(
                            q,
                        ).children@[kc] == j;
                    assert(t0.node_ok(q));
                    assert(t0.child_edge_ok(q, j));
                }
                assert(t1.is_live(q) && t1.depth_of(q) < t1.depth_of(j));
                assert(t0.chain(j) == seq![j] + t0.chain(q));
                assert(t1.chain(j) == seq![j] + t1.chain(q));
                lemma_detach_chain(t0, t1, c, p, x, q);
                lemma_chain(t0, q);
                // where `x` or `c` sits in the combined chain
                assert(t0.chain(j).contains(x) == (j == x || t0.chain(q).contains(x))) by {
                    lemma_chain_split(t0.chain(j), seq![j], t0.chain(q), x);
                }
                assert(t0.chain(j).contains(c) == (j == c || t0.chain(q).contains(c))) by {
                    lemma_chain_split(t0.chain(j), seq![j], t0.chain(q), c);
                }
                assert(t1.chain(j).contains(x) == (j == x || t1.chain(q).contains(x))) by {
                    lemma_chain_split(t1.chain(j), seq![j], t1.chain(q), x);
                }
                if j == x {
                    // the chain of `q` stays strictly above `c`
                    assert(!t0.chain(q).contains(c)) by {
                        if t0.chain(q).contains(c) {
                            let kx = choose|kx: int|
                                0 <= kx < t0.chain(q).len() && #[trigger] t0.chain(q)[kx]
                                    == c;
                            assert(t0.depth_of(t0.chain(q)[kx]) + kx == t0.depth_of(q));
                        }
                    }
                }
            },
        }
    }
}

/// Membership in a two-part chain `s == head + tail` with `head == seq![h]`.
proof fn lemma_chain_split(s: Seq<NodeId>, head: Seq<NodeId>, tail: Seq<NodeId>, x: NodeId)
    requires
        head.len() == 1,
        s == head + tail,
    ensures
        s.contains(x) == (head[0] == x || tail.contains(x)),
{
    if s.contains(x) {
        let k = choose|k: int| 0 <= k < s.len() && #[trigger] s[k] == x;
        if k >= 1 {
            assert(tail[k - 1] == x);
        }
    }
    if head[0] == x {
        assert(s[0] == x);
    }
    if tail.contains(x) {
        let k = choose|k: int| 0 <= k < tail.len() && #[trigger] tail[k] == x;
        assert(s[k + 1] == x);
    }
}

} // verus!
