//! The Monte Carlo Tree Search agent: a search tree of game positions held
//! in an arena, grown by repeated select / expand / simulate / backpropagate
//! iterations, with UCB1 scoring computed in fixed-point arithmetic.

use vstd::prelude::*;

use vstd::pervasive::arbitrary;
use vstd::pervasive::unreached;

use crate::players::mcts::arena_vec::{
    first_none, lemma_first_none, lemma_first_none_is, ArenaVec, NodeRef,
};
use crate::games::{play, GameResult, GameState, Player};
use crate::players::mcts::ucb::{
    spec_ucb, ucb_value, DEFAULT_EXPLORATION, MAX_EXPLORATION, UCB_FINITE_BOUND, UCB_INF,
};
use crate::players::random::{entropy_seed, rng_below, rng_from_seed, rng_u64, RandomPlayer};
use crate::players::GamePlayer;

pub mod arena_vec;
pub mod ucb;

verus! {

/// One node of a search tree: a game position, its place in the tree, and
/// the statistics gathered for it.
pub struct Node<T> {
    pub parent: Option<NodeRef>,
    pub children: Vec<NodeRef>,
    pub data: T,
    /// How many backpropagation passes have touched this node.
    pub num_plays: u64,
    /// Accumulated reward in half-points: 2 per win for the player who just
    /// moved into this node, 1 per draw, 0 per loss.
    pub score: u64,
    /// Set once this node's children have been generated; a node is never
    /// expanded twice.
    pub expanded: bool,
}

/// The node held in a slot that is known to be filled.
pub open spec fn slot_node<T>(o: Option<Node<T>>) -> Node<T> {
    match o {
        Some(n) => n,
        None => arbitrary(),
    }
}

/// A search tree: all nodes live in one arena and refer to each other only
/// by handle, so the parent back-references cannot form ownership cycles.
/// Handles are never recycled; a node keeps its handle for the tree's whole
/// lifetime.
pub struct ArenaTree<T> {
    nodes: ArenaVec<Node<T>>,
    root: NodeRef,
    /// How many backpropagation passes began at each node.
    starts: Ghost<Seq<nat>>,
}

impl<T> ArenaTree<T> {
    /// The raw slots of the arena, free capacity included.
    pub closed spec fn slots(&self) -> Seq<Option<Node<T>>> {
        self.nodes@
    }

    /// How many nodes the tree holds; they fill the slots `0 .. count()`.
    pub open spec fn count(&self) -> int {
        first_none(self.slots())
    }

    /// The node at slot `i`.
    pub open spec fn node_at(&self, i: int) -> Node<T> {
        slot_node(self.slots()[i])
    }

    pub open spec fn visits(&self, i: int) -> u64 {
        self.node_at(i).num_plays
    }

    pub open spec fn score2(&self, i: int) -> u64 {
        self.node_at(i).score
    }

    pub open spec fn kids(&self, i: int) -> Seq<NodeRef> {
        self.node_at(i).children@
    }

    pub open spec fn payload(&self, i: int) -> T {
        self.node_at(i).data
    }

    pub open spec fn is_expanded(&self, i: int) -> bool {
        self.node_at(i).expanded
    }

    /// The parent's index, or -1 for the root.
    pub open spec fn parent_idx(&self, i: int) -> int {
        match self.node_at(i).parent {
            Some(p) => p.0 as int,
            None => -1,
        }
    }

    /// The root's handle.
    pub closed spec fn root_handle(&self) -> NodeRef {
        self.root
    }

    /// How many backpropagation passes began at each node, in slot order.
    pub closed spec fn starts_seq(&self) -> Seq<nat> {
        self.starts@
    }

    pub open spec fn starts_at(&self, i: int) -> nat {
        self.starts_seq()[i]
    }

    /// Node `j` appears in its parent's child list.
    pub open spec fn linked_up(&self, j: int) -> bool {
        self.kids(self.parent_idx(j)).contains(NodeRef(j as usize))
    }

    /// The total visit count of a list of nodes.
    pub open spec fn sum_visits(&self, s: Seq<NodeRef>) -> int
        decreases s.len(),
    {
        if s.len() == 0 {
            0
        } else {
            self.visits(s[0].0 as int) + self.sum_visits(s.drop_first())
        }
    }

    /// Structural well-formedness: the filled slots form a prefix; the root
    /// is node 0 and the only node without a parent; every parent handle
    /// points at an earlier node; child lists point at later nodes, without
    /// duplicates, and agree exactly with the parent handles; every node's
    /// visit count is the number of passes that began at it plus its
    /// children's visit counts (visits are conserved up the tree); and no
    /// node's score exceeds two half-points per visit.
    pub open spec fn wf(&self) -> bool {
        &&& 1 <= self.count() <= self.slots().len()
        &&& self.slots().len() <= usize::MAX
        &&& forall|i: int| self.count() <= i < self.slots().len() ==> self.slots()[i] is None
        &&& self.root_handle() == (NodeRef(0usize))
        &&& self.starts_seq().len() == self.count()
        &&& forall|i: int|
            0 <= i < self.count() ==> ((#[trigger] self.parent_idx(i)) == -1 <==> i == 0)
        &&& forall|i: int| 0 < i < self.count() ==> 0 <= #[trigger] self.parent_idx(i) < i
        &&& forall|i: int, k: int|
            0 <= i < self.count() && 0 <= k < self.kids(i).len() ==> i < (
            #[trigger] self.kids(i)[k]).0 < self.count() && self.parent_idx(
                self.kids(i)[k].0 as int,
            ) == i
        &&& forall|i: int, a: int, b: int|
            0 <= i < self.count() && 0 <= a < b < self.kids(i).len() ==> (
            #[trigger] self.kids(i)[a]) != (#[trigger] self.kids(i)[b])
        &&& forall|j: int| 0 < j < self.count() ==> #[trigger] self.linked_up(j)
        &&& forall|i: int|
            0 <= i < self.count() && #[trigger] self.is_expanded(i) ==> self.kids(i).len() > 0
        &&& forall|i: int|
            0 <= i < self.count() ==> (#[trigger] self.visits(i)) as int == self.starts_at(i)
                + self.sum_visits(self.kids(i))
        &&& forall|i: int|
            0 <= i < self.count() ==> (#[trigger] self.score2(i)) as int <= 2 * self.visits(i)
    }

    /// Two trees with pointwise equal visit counts over a list give it the
    /// same total.
    proof fn lemma_sum_congruent(t1: &Self, t2: &Self, s: Seq<NodeRef>)
        requires
            forall|k: int|
                0 <= k < s.len() ==> t1.visits((#[trigger] s[k]).0 as int) == t2.visits(
                    s[k].0 as int,
                ),
        ensures
            t1.sum_visits(s) == t2.sum_visits(s),
        decreases s.len(),
    {
        if s.len() > 0 {
            Self::lemma_sum_congruent(t1, t2, s.drop_first());
        }
    }

    /// A list's total visit count grows by exactly one when exactly the
    /// entries equal to `c` (present once) gain one visit.
    proof fn lemma_sum_bump(t1: &Self, t2: &Self, s: Seq<NodeRef>, c: NodeRef)
        requires
            s.contains(c),
            forall|a: int, b: int| 0 <= a < b < s.len() ==> (#[trigger] s[a]) != (#[trigger] s[b]),
            forall|k: int|
                0 <= k < s.len() && (#[trigger] s[k]) != c ==> t1.visits(s[k].0 as int)
                    == t2.visits(s[k].0 as int),
            t2.visits(c.0 as int) as int == t1.visits(c.0 as int) + 1,
        ensures
            t2.sum_visits(s) == t1.sum_visits(s) + 1,
        decreases s.len(),
    {
        if s[0] == c {
            assert forall|k: int| 0 <= k < s.drop_first().len() implies t1.visits(
                (#[trigger] s.drop_first()[k]).0 as int,
            ) == t2.visits(s.drop_first()[k].0 as int) by {
                assert(s.drop_first()[k] == s[k + 1]);
                assert(s[k + 1] != c);
            }
            Self::lemma_sum_congruent(t1, t2, s.drop_first());
        } else {
            let w = choose|w: int| 0 <= w < s.len() && s[w] == c;
            assert(s.drop_first()[w - 1] == c);
            assert(s.drop_first().contains(c));
            Self::lemma_sum_bump(t1, t2, s.drop_first(), c);
        }
    }

    /// Every visit count in a list is at most the list's total.
    proof fn lemma_sum_member_le(t: &Self, s: Seq<NodeRef>, c: NodeRef)
        requires
            s.contains(c),
        ensures
            t.visits(c.0 as int) as int <= t.sum_visits(s),
        decreases s.len(),
    {
        Self::lemma_sum_nonneg(t, s.drop_first());
        if s[0] == c {
        } else {
            let w = choose|w: int| 0 <= w < s.len() && s[w] == c;
            assert(s.drop_first()[w - 1] == c);
            assert(s.drop_first().contains(c));
            Self::lemma_sum_member_le(t, s.drop_first(), c);
        }
    }

    /// A list's total visit count is never negative.
    proof fn lemma_sum_nonneg(t: &Self, s: Seq<NodeRef>)
        ensures
            t.sum_visits(s) >= 0,
        decreases s.len(),
    {
        if s.len() > 0 {
            Self::lemma_sum_nonneg(t, s.drop_first());
        }
    }

    /// A child's visit count never exceeds its parent's.
    pub proof fn lemma_child_visits_le(t: &Self, i: int, c: NodeRef)
        requires
            t.wf(),
            0 <= i < t.count(),
            t.kids(i).contains(c),
        ensures
            t.visits(c.0 as int) <= t.visits(i),
    {
        Self::lemma_sum_member_le(t, t.kids(i), c);
    }

    /// A tree with `root_data` at its root, no visits, and `capacity`
    /// pre-allocated slots.
    pub fn new(root_data: T, capacity: usize) -> (t: ArenaTree<T>)
        ensures
            t.wf(),
            t.count() == 1,
            t.payload(0) == root_data,
            t.visits(0) == 0,
            t.score2(0) == 0,
            t.kids(0).len() == 0,
            t.starts_at(0) == 0,
            !t.is_expanded(0),
            t.slots().len() == if capacity >= 1 {
                capacity as int
            } else {
                1
            },
    {
        let node = Node {
            parent: None,
            children: Vec::new(),
            data: root_data,
            num_plays: 0,
            score: 0,
            expanded: false,
        };
        let mut nodes = ArenaVec::new(capacity);
        proof {
            lemma_first_none_is(nodes@, 0);
        }
        let root = nodes.insert(node);
        let ghost s0: Seq<nat> = seq![0nat];
        let t = ArenaTree { nodes, root, starts: Ghost(s0) };
        proof {
            t.nodes.lemma_len_bound();
            lemma_first_none_is(t.slots(), 1);
            assert(t.kids(0).len() == 0);
            assert(t.sum_visits(t.kids(0)) == 0);
        }
        t
    }

    /// The root's handle.
    pub fn root_ref(&self) -> (r: NodeRef)
        requires
            self.wf(),
        ensures
            r == (NodeRef(0usize)),
    {
        self.root
    }

    /// Read a node.
    pub fn get(&self, index: &NodeRef) -> (r: &Node<T>)
        requires
            self.wf(),
            index.0 < self.count(),
        ensures
            *r == self.node_at(index.0 as int),
    {
        proof {
            lemma_first_none(self.slots());
        }
        self.nodes.get(index)
    }

    /// Write access to a node. The caller is responsible for keeping the
    /// tree well formed: the final slots are the old ones with this node
    /// replaced by whatever the caller leaves behind.
    pub fn get_mut(&mut self, index: &NodeRef) -> (r: &mut Node<T>)
        requires
            index.0 < old(self).slots().len(),
            old(self).slots()[index.0 as int] is Some,
        ensures
            *r == old(self).node_at(index.0 as int),
            final(self).slots() == old(self).slots().update(index.0 as int, Some(*final(r))),
            final(self).root_handle() == old(self).root_handle(),
            final(self).starts_seq() == old(self).starts_seq(),
    {
        self.nodes.get_mut(index)
    }

    /// The children of a node, in creation order.
    pub fn children_of(&self, index: &NodeRef) -> (r: &Vec<NodeRef>)
        requires
            self.wf(),
            index.0 < self.count(),
        ensures
            r@ == self.kids(index.0 as int),
    {
        &self.get(index).children
    }

    /// Read the root node.
    pub fn root(&self) -> (r: &Node<T>)
        requires
            self.wf(),
        ensures
            *r == self.node_at(0),
    {
        proof {
            lemma_first_none(self.slots());
        }
        self.nodes.get(&self.root)
    }

    /// Write access to the root node, under the same caller obligation as
    /// [`Self::get_mut`].
    pub fn root_mut(&mut self) -> (r: &mut Node<T>)
        requires
            old(self).wf(),
        ensures
            *r == old(self).node_at(0),
            final(self).slots() == old(self).slots().update(0, Some(*final(r))),
            final(self).root_handle() == old(self).root_handle(),
            final(self).starts_seq() == old(self).starts_seq(),
    {
        proof {
            lemma_first_none(self.slots());
        }
        self.nodes.get_mut(&self.root)
    }

    /// Create a new node holding `value` as a child of `parent`: the node
    /// goes into the next free slot, and its handle is appended to the
    /// parent's child list. Everything else is untouched.
    pub fn insert(&mut self, value: T, parent: &NodeRef) -> (r: NodeRef)
        requires
            old(self).wf(),
            parent.0 < old(self).count(),
        ensures
            final(self).wf(),
            r.0 as int == old(self).count(),
            final(self).count() == old(self).count() + 1,
            final(self).payload(r.0 as int) == value,
            final(self).visits(r.0 as int) == 0,
            final(self).score2(r.0 as int) == 0,
            final(self).kids(r.0 as int).len() == 0,
            final(self).starts_at(r.0 as int) == 0,
            !final(self).is_expanded(r.0 as int),
            final(self).parent_idx(r.0 as int) == parent.0 as int,
            forall|i: int|
                0 <= i < old(self).count() && i != parent.0 as int
                    ==> final(self).node_at(i) == old(self).node_at(i),
            final(self).kids(parent.0 as int) == old(self).kids(parent.0 as int).push(r),
            final(self).node_at(parent.0 as int) == (Node {
                children: final(self).node_at(parent.0 as int).children,
                ..old(self).node_at(parent.0 as int)
            }),
            forall|i: int| 0 <= i < old(self).count() ==> final(self).starts_at(i) == old(
                self,
            ).starts_at(i),
            final(self).root_handle() == old(self).root_handle(),
            final(self).slots().len() == if old(self).count() < old(self).slots().len() {
                old(self).slots().len() as int
            } else {
                old(self).slots().len() + 1int
            },
    {
        let ghost t0 = *self;
        proof {
            lemma_first_none(self.slots());
        }
        let node = Node {
            parent: Some(*parent),
            children: Vec::new(),
            data: value,
            num_plays: 0,
            score: 0,
            expanded: false,
        };
        let r = self.nodes.insert(node);
        proof {
            self.starts@ = self.starts@.push(0nat);
            lemma_first_none_is(self.slots(), t0.count() + 1);
        }
        let p = self.nodes.get_mut(parent);
        p.children.push(r);
        proof {
            let t2 = *self;
            let n = t0.count();
            let pi = parent.0 as int;
            t2.nodes.lemma_len_bound();
            assert(t2.count() == n + 1) by {
                lemma_first_none_is(t2.slots(), n + 1);
            }
            assert forall|i: int| 0 <= i < n && i != pi implies t2.node_at(i) == t0.node_at(
                i,
            ) by {}
            assert(t2.node_at(pi).num_plays == t0.node_at(pi).num_plays);
            assert(t2.node_at(pi).score == t0.node_at(pi).score);
            assert(t2.node_at(pi).parent == t0.node_at(pi).parent);
            assert(t2.node_at(pi).expanded == t0.node_at(pi).expanded);
            assert(t2.kids(pi) == t0.kids(pi).push(r));
            assert(t2.starts_seq() == t0.starts_seq().push(0nat));
            // every pre-existing node keeps its visit count
            assert forall|i: int| 0 <= i < n implies t2.visits(i) == t0.visits(i) by {}
            // conservation: the new node contributes nothing to any total
            assert forall|i: int| 0 <= i < t2.count() implies (#[trigger] t2.visits(i)) as int
                == t2.starts_at(i) + t2.sum_visits(t2.kids(i)) by {
                if i == n {
                    assert(t2.kids(i).len() == 0);
                    assert(t2.starts_at(i) == 0);
                } else {
                    assert(t0.visits(i) as int == t0.starts_at(i) + t0.sum_visits(t0.kids(i)));
                    assert forall|k: int| 0 <= k < t0.kids(i).len() implies t0.visits(
                        (#[trigger] t0.kids(i)[k]).0 as int,
                    ) == t2.visits(t0.kids(i)[k].0 as int) by {
                        assert(i < t0.kids(i)[k].0 < n);
                    }
                    Self::lemma_sum_congruent(&t0, &t2, t0.kids(i));
                    if i == pi {
                        Self::lemma_sum_push(&t2, t0.kids(pi), r);
                        assert(t2.visits(r.0 as int) == 0);
                    } else {
                        assert(t2.kids(i) == t0.kids(i));
                    }
                }
            }
            // scores are untouched
            assert forall|i: int| 0 <= i < t2.count() implies (#[trigger] t2.score2(i)) as int
                <= 2 * t2.visits(i) by {
                if i < n {
                    assert(t0.score2(i) as int <= 2 * t0.visits(i));
                }
            }
            // parent handles still point strictly downward, only at the root
            // is there none
            assert forall|i: int| 0 <= i < t2.count() implies ((#[trigger] t2.parent_idx(i))
                == -1 <==> i == 0) by {
                if i < n {
                    assert(t0.parent_idx(i) == -1 <==> i == 0);
                }
            }
            assert forall|i: int| 0 < i < t2.count() implies 0 <= #[trigger] t2.parent_idx(i)
                < i by {
                if i < n {
                    assert(0 <= t0.parent_idx(i) < i);
                }
            }
            // child lists: bounds, back-references, and no duplicates
            assert forall|i: int, k: int|
                0 <= i < t2.count() && 0 <= k < t2.kids(i).len() implies i < (
            #[trigger] t2.kids(i)[k]).0 < t2.count() && t2.parent_idx(t2.kids(i)[k].0 as int)
                == i by {
                if i < n {
                    if i == pi && k == t0.kids(pi).len() {
                        assert(t2.kids(i)[k] == r);
                    } else {
                        assert(t2.kids(i)[k] == t0.kids(i)[k]);
                        assert(i < t0.kids(i)[k].0 < n && t0.parent_idx(t0.kids(i)[k].0 as int)
                            == i);
                    }
                }
            }
            assert forall|i: int, a: int, b: int|
                0 <= i < t2.count() && 0 <= a < b < t2.kids(i).len() implies (
            #[trigger] t2.kids(i)[a]) != (#[trigger] t2.kids(i)[b]) by {
                if i == pi && b == t0.kids(pi).len() {
                    assert(t2.kids(i)[a] == t0.kids(i)[a]);
                    assert(t2.kids(i)[a].0 < n);
                    assert(t2.kids(i)[b] == r);
                } else if i < n {
                    assert(t2.kids(i)[a] == t0.kids(i)[a] && t2.kids(i)[b] == t0.kids(i)[b]);
                    assert(t0.kids(i)[a] != t0.kids(i)[b]);
                }
            }
            // every non-root node sits in its parent's child list
            assert forall|j: int| 0 < j < t2.count() implies #[trigger] t2.linked_up(j) by {
                if j == n {
                    assert(t2.kids(pi)[t0.kids(pi).len() as int] == r);
                    assert(t2.kids(pi).contains(NodeRef(j as usize)));
                } else {
                    assert(t0.linked_up(j));
                    let pj = t0.parent_idx(j);
                    let w = choose|w: int|
                        0 <= w < t0.kids(pj).len() && t0.kids(pj)[w] == NodeRef(j as usize);
                    assert(t2.kids(pj)[w] == NodeRef(j as usize));
                    assert(t2.kids(pj).contains(NodeRef(j as usize)));
                }
            }
            assert forall|i: int|
                0 <= i < t2.count() && #[trigger] t2.is_expanded(i) implies t2.kids(i).len()
                > 0 by {
                if i < n {
                    assert(t0.is_expanded(i) ==> t0.kids(i).len() > 0);
                }
            }
            assert(t2.wf());
        }
        r
    }

    /// The UCB1 rank of a non-root node under exploration constant `c2`
    /// (in Q16): unvisited nodes rank at the unreachable top [`UCB_INF`];
    /// visited ones get the fixed-point UCB1 score against their parent's
    /// visit count.
    pub open spec fn node_ucb(&self, c2: nat, i: int) -> nat {
        if self.visits(i) == 0 {
            UCB_INF as nat
        } else {
            spec_ucb(
                c2,
                self.score2(i) as nat,
                self.visits(i) as nat,
                self.visits(self.parent_idx(i)) as nat,
            )
        }
    }

    /// The UCB1 rank of a non-root node. An unvisited node always gets
    /// [`UCB_INF`]; a visited one always scores strictly below it.
    pub fn get_ucb_value(&self, node: &NodeRef, c2: u64) -> (r: u64)
        requires
            self.wf(),
            0 < node.0 < self.count(),
            c2 <= MAX_EXPLORATION,
        ensures
            r as nat == self.node_ucb(c2 as nat, node.0 as int),
            self.visits(node.0 as int) == 0 ==> r == UCB_INF,
            self.visits(node.0 as int) > 0 ==> r < UCB_FINITE_BOUND,
    {
        let n = self.get(node);
        let plays = n.num_plays;
        let score = n.score;
        if plays == 0 {
            return UCB_INF;
        }
        proof {
            assert(self.parent_idx(node.0 as int) != -1);
            assert(self.score2(node.0 as int) as int <= 2 * self.visits(node.0 as int));
        }
        let pref = match n.parent {
            Some(p) => p,
            None => unreached(),
        };
        proof {
            assert(self.linked_up(node.0 as int));
            Self::lemma_child_visits_le(self, pref.0 as int, NodeRef(node.0));
        }
        let parent = self.get(&pref);
        ucb_value(c2, score, plays, parent.num_plays)
    }

    /// The child of `node` with the highest UCB1 rank; the first of equals
    /// wins. An unvisited child always beats every visited one.
    pub fn select_best_child(&self, node: &NodeRef, c2: u64) -> (r: NodeRef)
        requires
            self.wf(),
            node.0 < self.count(),
            self.kids(node.0 as int).len() >= 1,
            c2 <= MAX_EXPLORATION,
        ensures
            self.kids(node.0 as int).contains(r),
            node.0 < r.0 < self.count(),
            forall|k: int|
                0 <= k < self.kids(node.0 as int).len() ==> self.node_ucb(
                    c2 as nat,
                    (#[trigger] self.kids(node.0 as int)[k]).0 as int,
                ) <= self.node_ucb(c2 as nat, r.0 as int),
            (exists|k: int|
                0 <= k < self.kids(node.0 as int).len() && self.visits(
                    (#[trigger] self.kids(node.0 as int)[k]).0 as int,
                ) == 0) ==> self.visits(r.0 as int) == 0,
    {
        let ghost ni = node.0 as int;
        let kids = self.children_of(node);
        let mut best = kids[0];
        let mut best_u = self.get_ucb_value(&best, c2);
        let mut k: usize = 1;
        while k < kids.len()
            invariant
                self.wf(),
                0 <= ni < self.count(),
                c2 <= MAX_EXPLORATION,
                kids@ == self.kids(ni),
                1 <= k <= kids@.len(),
                self.kids(ni).contains(best),
                ni < best.0 < self.count(),
                best_u as nat == self.node_ucb(c2 as nat, best.0 as int),
                forall|j: int|
                    0 <= j < k ==> self.node_ucb(c2 as nat, (#[trigger] self.kids(ni)[j]).0 as int)
                        <= best_u as nat,
            decreases kids@.len() - k,
        {
            let c = kids[k];
            let u = self.get_ucb_value(&c, c2);
            if u > best_u {
                best = c;
                best_u = u;
            }
            k += 1;
        }
        proof {
            if exists|k: int|
                0 <= k < self.kids(ni).len() && self.visits(
                    (#[trigger] self.kids(ni)[k]).0 as int,
                ) == 0 {
                let w = choose|w: int|
                    0 <= w < self.kids(ni).len() && self.visits(
                        (#[trigger] self.kids(ni)[w]).0 as int,
                    ) == 0;
                assert(self.node_ucb(c2 as nat, self.kids(ni)[w].0 as int) == UCB_INF as nat);
                assert(self.node_ucb(c2 as nat, best.0 as int) == UCB_INF as nat);
                if self.visits(best.0 as int) > 0 {
                    assert(self.linked_up(best.0 as int));
                    Self::lemma_child_visits_le(self, ni, best);
                    crate::players::mcts::ucb::lemma_ucb_bounded(
                        c2 as nat,
                        self.score2(best.0 as int) as nat,
                        self.visits(best.0 as int) as nat,
                        self.visits(ni) as nat,
                    );
                    assert(false);
                }
            }
        }
        best
    }

    /// One descent step: `j` is a child of `i` whose UCB1 rank under
    /// exploration constant `c2` no sibling exceeds.
    pub open spec fn best_step(&self, c2: nat, i: int, j: int) -> bool {
        &&& 0 <= i < self.count()
        &&& i < j < self.count()
        &&& self.kids(i).contains(NodeRef(j as usize))
        &&& forall|k: int|
            0 <= k < self.kids(i).len() ==> self.node_ucb(
                c2,
                (#[trigger] self.kids(i)[k]).0 as int,
            ) <= self.node_ucb(c2, j)
    }

    /// A selection path: it starts at the root, each step descends to a
    /// child of maximal UCB1 rank among its siblings, and it ends at a
    /// node with no children.
    pub open spec fn ucb_descent(&self, c2: nat, path: Seq<int>) -> bool {
        &&& path.len() >= 1
        &&& path[0] == 0
        &&& forall|k: int|
            0 <= k < path.len() - 1 ==> self.best_step(c2, #[trigger] path[k], path[k + 1])
        &&& self.kids(path[path.len() - 1]).len() == 0
    }

    /// Walk from the root to a leaf of the current tree, always descending
    /// into the child with the highest UCB1 rank under exploration
    /// constant `c2` (`select_best_child` fixes which one on ties): the
    /// returned leaf is the end of a full selection path.
    pub fn select_leaf_node(&self, c2: u64) -> (r: NodeRef)
        requires
            self.wf(),
            c2 <= MAX_EXPLORATION,
        ensures
            r.0 < self.count(),
            self.kids(r.0 as int).len() == 0,
            exists|path: Seq<int>|
                self.ucb_descent(c2 as nat, path) && path[path.len() - 1] == r.0 as int,
    {
        let mut node = self.root_ref();
        let ghost mut path: Seq<int> = seq![0int];
        while self.children_of(&node).len() > 0
            invariant
                self.wf(),
                c2 <= MAX_EXPLORATION,
                node.0 < self.count(),
                path.len() >= 1,
                path[0] == 0,
                path[path.len() - 1] == node.0 as int,
                forall|k: int|
                    0 <= k < path.len() - 1 ==> self.best_step(
                        c2 as nat,
                        #[trigger] path[k],
                        path[k + 1],
                    ),
            decreases self.count() - node.0,
        {
            let next = self.select_best_child(&node, c2);
            proof {
                assert(self.best_step(c2 as nat, node.0 as int, next.0 as int)) by {
                    assert(NodeRef((next.0 as int) as usize) == next);
                }
                let p2 = path.push(next.0 as int);
                assert forall|k: int| 0 <= k < p2.len() - 1 implies self.best_step(
                    c2 as nat,
                    #[trigger] p2[k],
                    p2[k + 1],
                ) by {
                    if k < path.len() - 1 {
                        assert(p2[k] == path[k] && p2[k + 1] == path[k + 1]);
                    } else {
                        assert(p2[k] == node.0 as int && p2[k + 1] == next.0 as int);
                    }
                }
                path = p2;
            }
            node = next;
        }
        proof {
            assert(self.ucb_descent(c2 as nat, path));
        }
        node
    }

    /// Appending a node to a list adds its visit count to the total.
    proof fn lemma_sum_push(t: &Self, s: Seq<NodeRef>, c: NodeRef)
        ensures
            t.sum_visits(s.push(c)) == t.sum_visits(s) + t.visits(c.0 as int),
        decreases s.len(),
    {
        if s.len() == 0 {
            assert(s.push(c).drop_first() =~= s);
        } else {
            assert(s.push(c).drop_first() =~= s.drop_first().push(c));
            Self::lemma_sum_push(t, s.drop_first(), c);
        }
    }

    /// Marking a node (that has children) as expanded keeps the tree well
    /// formed and changes nothing else.
    proof fn lemma_wf_set_expanded(t1: &Self, t2: &Self, x: int)
        requires
            t1.wf(),
            0 <= x < t1.count(),
            t1.kids(x).len() > 0,
            t2.slots() == t1.slots().update(
                x,
                Some(Node { expanded: true, ..t1.node_at(x) }),
            ),
            t2.root_handle() == t1.root_handle(),
            t2.starts_seq() == t1.starts_seq(),
        ensures
            t2.wf(),
            t2.count() == t1.count(),
            forall|i: int| 0 <= i < t1.count() && i != x ==> t2.node_at(i) == t1.node_at(i),
            t2.node_at(x) == (Node { expanded: true, ..t1.node_at(x) }),
    {
        let n = t1.count();
        lemma_first_none(t1.slots());
        lemma_first_none_is(t2.slots(), n);
        assert(t2.slots().len() == t1.slots().len());
        assert forall|i: int| 0 <= i < n implies t2.visits(i) == t1.visits(i) && t2.score2(i)
            == t1.score2(i) && t2.kids(i) == t1.kids(i) && t2.parent_idx(i) == t1.parent_idx(
            i,
        ) by {}
        assert forall|i: int| 0 <= i < n implies (#[trigger] t2.visits(i)) as int
            == t2.starts_at(i) + t2.sum_visits(t2.kids(i)) by {
            assert(t1.visits(i) as int == t1.starts_at(i) + t1.sum_visits(t1.kids(i)));
            assert forall|k: int| 0 <= k < t1.kids(i).len() implies t1.visits(
                (#[trigger] t1.kids(i)[k]).0 as int,
            ) == t2.visits(t1.kids(i)[k].0 as int) by {
                assert(i < t1.kids(i)[k].0 < n);
            }
            Self::lemma_sum_congruent(t1, t2, t1.kids(i));
        }
        assert forall|i: int| 0 <= i < n implies (#[trigger] t2.score2(i)) as int <= 2
            * t2.visits(i) by {
            assert(t1.score2(i) as int <= 2 * t1.visits(i));
        }
        assert forall|i: int| 0 <= i < n implies ((#[trigger] t2.parent_idx(i)) == -1 <==> i
            == 0) by {
            assert(t1.parent_idx(i) == -1 <==> i == 0);
        }
        assert forall|i: int| 0 < i < n implies 0 <= #[trigger] t2.parent_idx(i) < i by {
            assert(0 <= t1.parent_idx(i) < i);
        }
        assert forall|j: int| 0 < j < n implies #[trigger] t2.linked_up(j) by {
            assert(t1.linked_up(j));
            let pj = t1.parent_idx(j);
            let w = choose|w: int|
                0 <= w < t1.kids(pj).len() && t1.kids(pj)[w] == NodeRef(j as usize);
            assert(t2.kids(pj)[w] == NodeRef(j as usize));
            assert(t2.kids(pj).contains(NodeRef(j as usize)));
        }
        assert forall|i: int|
            0 <= i < n && #[trigger] t2.is_expanded(i) implies t2.kids(i).len() > 0 by {
            if i != x {
                assert(t1.is_expanded(i) ==> t1.kids(i).len() > 0);
            }
        }
        assert forall|i: int, k: int|
            0 <= i < n && 0 <= k < t2.kids(i).len() implies i < (#[trigger] t2.kids(i)[k]).0
            < n && t2.parent_idx(t2.kids(i)[k].0 as int) == i by {
            assert(t2.kids(i)[k] == t1.kids(i)[k]);
            assert(i < t1.kids(i)[k].0 < n && t1.parent_idx(t1.kids(i)[k].0 as int) == i);
        }
        assert forall|i: int, a: int, b: int|
            0 <= i < n && 0 <= a < b < t2.kids(i).len() implies (#[trigger] t2.kids(i)[a]) != (
        #[trigger] t2.kids(i)[b]) by {
            assert(t1.kids(i)[a] != t1.kids(i)[b]);
        }
        assert(t2.wf());
    }
}

/// The reward credited to a node when `result` is backpropagated through
/// it, in half-points, from the perspective of the player who just moved
/// into the node: 2 when the winner is not the player to move there, 1 for
/// a draw, 0 otherwise.
pub open spec fn reward2(result: GameResult, to_move: Player) -> u64 {
    match result {
        GameResult::InProgress => 0,
        GameResult::Draw => 1,
        GameResult::Win(w) => if w != to_move {
            2
        } else {
            0
        },
    }
}

impl<T> ArenaTree<T> {
    /// Whether `x` lies on the path from `node` up to the root, inclusive.
    /// In a well-formed tree every parent handle points at an earlier node,
    /// so the walk ends.
    pub open spec fn on_chain(&self, node: int, x: int) -> bool
        decreases node,
    {
        if node > 0 && 0 <= self.parent_idx(node) < node {
            x == node || self.on_chain(self.parent_idx(node), x)
        } else {
            x == node
        }
    }

    /// Path members lie between the root and the starting node, and the
    /// root is always a member.
    pub proof fn lemma_chain_bounds(t: &Self, node: int)
        requires
            t.wf(),
            0 <= node < t.count(),
        ensures
            forall|x: int| #[trigger] t.on_chain(node, x) ==> 0 <= x <= node,
            t.on_chain(node, node),
            t.on_chain(node, 0),
        decreases node,
    {
        if node > 0 {
            assert(0 <= t.parent_idx(node) < node);
            Self::lemma_chain_bounds(t, t.parent_idx(node));
            assert forall|x: int| #[trigger] t.on_chain(node, x) implies 0 <= x <= node by {
                if x != node {
                    assert(t.on_chain(t.parent_idx(node), x));
                }
            }
            assert(t.on_chain(node, node));
            assert(t.on_chain(t.parent_idx(node), 0));
            assert(t.on_chain(node, 0));
        } else {
            assert(node == 0);
            assert forall|x: int| #[trigger] t.on_chain(node, x) implies 0 <= x <= node by {
                assert(x == node);
            }
            assert(t.on_chain(0, 0));
        }
    }

    /// The path continues from any non-root member to its parent.
    pub proof fn lemma_chain_parent(t: &Self, node: int, x: int)
        requires
            t.wf(),
            0 <= node < t.count(),
            t.on_chain(node, x),
            x > 0,
        ensures
            t.on_chain(node, t.parent_idx(x)),
        decreases node,
    {
        if x == node {
            Self::lemma_chain_bounds(t, t.parent_idx(node));
        } else {
            Self::lemma_chain_parent(t, t.parent_idx(node), x);
        }
    }

    /// A node one of whose children lies on the path lies on it itself.
    pub proof fn lemma_chain_kid_up(t: &Self, node: int, i: int, c: NodeRef)
        requires
            t.wf(),
            0 <= node < t.count(),
            0 <= i < t.count(),
            t.kids(i).contains(c),
            t.on_chain(node, c.0 as int),
        ensures
            t.on_chain(node, i),
        decreases node,
    {
        let w = choose|w: int| 0 <= w < t.kids(i).len() && t.kids(i)[w] == c;
        assert(t.parent_idx(c.0 as int) == i);
        assert(i < c.0);
        if node == 0 {
            assert(c.0 as int == 0);
            assert(false);
        }
        assert(0 <= t.parent_idx(node) < node);
        if c.0 as int == node {
            assert(t.parent_idx(node) == i);
            assert(t.on_chain(i, i));
            assert(t.on_chain(node, i));
        } else {
            assert(t.on_chain(t.parent_idx(node), c.0 as int));
            Self::lemma_chain_kid_up(t, t.parent_idx(node), i, c);
            assert(t.on_chain(node, i));
        }
    }

    /// At most one child of any node lies on the path.
    pub proof fn lemma_chain_kid_unique(t: &Self, node: int, i: int, c1: NodeRef, c2: NodeRef)
        requires
            t.wf(),
            0 <= node < t.count(),
            0 <= i < t.count(),
            t.kids(i).contains(c1),
            t.kids(i).contains(c2),
            t.on_chain(node, c1.0 as int),
            t.on_chain(node, c2.0 as int),
        ensures
            c1 == c2,
        decreases node,
    {
        let w1 = choose|w: int| 0 <= w < t.kids(i).len() && t.kids(i)[w] == c1;
        let w2 = choose|w: int| 0 <= w < t.kids(i).len() && t.kids(i)[w] == c2;
        assert(t.parent_idx(c1.0 as int) == i);
        assert(t.parent_idx(c2.0 as int) == i);
        assert(i < c1.0);
        assert(i < c2.0);
        if node == 0 {
            assert(c1.0 as int == 0 && c2.0 as int == 0);
            assert(false);
        }
        assert(0 <= t.parent_idx(node) < node);
        if c1.0 as int == node && c2.0 as int == node {
            assert(c1 == c2);
        } else if c1.0 as int == node {
            // c2 lies on the path from node's parent, which is i: path
            // members there sit at or below i, yet children sit above i
            assert(t.parent_idx(node) == i);
            assert(t.on_chain(i, c2.0 as int));
            Self::lemma_chain_bounds(t, i);
            assert(c2.0 <= i);
            assert(false);
        } else if c2.0 as int == node {
            assert(t.parent_idx(node) == i);
            assert(t.on_chain(i, c1.0 as int));
            Self::lemma_chain_bounds(t, i);
            assert(c1.0 <= i);
            assert(false);
        } else {
            assert(t.on_chain(t.parent_idx(node), c1.0 as int));
            assert(t.on_chain(t.parent_idx(node), c2.0 as int));
            Self::lemma_chain_kid_unique(t, t.parent_idx(node), i, c1, c2);
        }
    }

    /// Every non-final path member has a child on the path.
    pub proof fn lemma_chain_has_kid(t: &Self, node: int, i: int) -> (c: NodeRef)
        requires
            t.wf(),
            0 <= node < t.count(),
            t.on_chain(node, i),
            i != node,
        ensures
            t.kids(i).contains(c),
            t.on_chain(node, c.0 as int),
        decreases node,
    {
        Self::lemma_chain_bounds(t, node);
        assert(node > 0);
        assert(0 <= t.parent_idx(node) < node);
        t.nodes.lemma_len_bound();
        assert(node <= usize::MAX);
        if t.parent_idx(node) == i {
            assert(t.linked_up(node));
            let c = NodeRef(node as usize);
            assert(c.0 as int == node);
            assert(t.on_chain(node, node));
            c
        } else {
            assert(t.on_chain(t.parent_idx(node), i));
            let c = Self::lemma_chain_has_kid(t, t.parent_idx(node), i);
            assert(t.on_chain(node, c.0 as int));
            c
        }
    }

    /// Visit counts never shrink walking up the path: every path member's
    /// count is at most the root's.
    pub proof fn lemma_chain_visits_le_root(t: &Self, node: int, x: int)
        requires
            t.wf(),
            0 <= node < t.count(),
            t.on_chain(node, x),
        ensures
            t.visits(x) <= t.visits(0),
        decreases node,
    {
        if x == node {
            if node > 0 {
                assert(0 <= t.parent_idx(node) < node);
                t.nodes.lemma_len_bound();
                assert(node <= usize::MAX);
                assert(t.linked_up(node));
                let c = NodeRef(node as usize);
                assert(c.0 as int == node);
                Self::lemma_child_visits_le(t, t.parent_idx(node), c);
                Self::lemma_chain_bounds(t, t.parent_idx(node));
                Self::lemma_chain_visits_le_root(t, t.parent_idx(node), t.parent_idx(node));
            }
        } else {
            if node == 0 {
                assert(x == 0);
                assert(false);
            }
            assert(0 <= t.parent_idx(node) < node);
            assert(t.on_chain(t.parent_idx(node), x));
            Self::lemma_chain_visits_le_root(t, t.parent_idx(node), x);
        }
    }
}

/// Some legal move of the parent position leads to the child position.
pub open spec fn child_edge<T: GameState>(pm: T::Model, cm: T::Model) -> bool {
    exists|mv: T::Move| #![auto] T::moves_of(pm).contains(mv) && cm == T::step_of(pm, mv)
}

impl<T: GameState> ArenaTree<T> {
    /// Well-formedness of a search tree over game positions: the tree is
    /// structurally sound, every payload is a reachable position, and every
    /// child's payload is its parent's payload with one legal move applied.
    pub open spec fn game_wf(&self) -> bool {
        &&& self.wf()
        &&& forall|i: int|
            0 <= i < self.count() ==> T::inv((#[trigger] self.payload(i)).model())
        &&& forall|i: int|
            0 < i < self.count() ==> child_edge::<T>(
                self.payload(self.parent_idx(i)).model(),
                (#[trigger] self.payload(i)).model(),
            )
    }

    /// Whether the position at `node` is already decided.
    pub fn is_node_termnial(&self, node: &NodeRef) -> (r: bool)
        requires
            self.game_wf(),
            node.0 < self.count(),
        ensures
            r == !(T::result_of(self.payload(node.0 as int).model()) is InProgress),
    {
        !(self.get(node).data.check_win() == GameResult::InProgress)
    }

    /// Expand a leaf: create one child per legal move of its position, each
    /// child's payload being the position with that move applied, and mark
    /// the leaf expanded. Expanding twice is ruled out up front: it would
    /// corrupt the visit and score bookkeeping.
    pub fn create_children_for(&mut self, node: &NodeRef)
        requires
            old(self).game_wf(),
            node.0 < old(self).count(),
            !old(self).is_expanded(node.0 as int),
            old(self).kids(node.0 as int).len() == 0,
            T::result_of(old(self).payload(node.0 as int).model()) is InProgress,
        ensures
            final(self).game_wf(),
            final(self).count() == old(self).count() + T::moves_of(
                old(self).payload(node.0 as int).model(),
            ).len(),
            final(self).kids(node.0 as int).len() == T::moves_of(
                old(self).payload(node.0 as int).model(),
            ).len(),
            final(self).kids(node.0 as int).len() >= 1,
            final(self).is_expanded(node.0 as int),
            forall|i: int|
                0 <= i < old(self).count() ==> final(self).visits(i) == old(self).visits(i)
                    && final(self).score2(i) == old(self).score2(i) && final(self).starts_at(i)
                    == old(self).starts_at(i) && final(self).payload(i) == old(self).payload(i),
            forall|i: int|
                old(self).count() <= i < final(self).count() ==> final(self).visits(i) == 0
                    && final(self).kids(i).len() == 0 && final(self).starts_at(i) == 0,
            forall|i: int|
                0 <= i < old(self).count() && i != node.0 as int ==> final(self).kids(i) == old(
                    self,
                ).kids(i),
            // child j is a fresh handle, in move order, and its payload is
            // the leaf's position with legal move j applied
            forall|j: int|
                0 <= j < T::moves_of(old(self).payload(node.0 as int).model()).len() ==> (
                #[trigger] final(self).kids(node.0 as int)[j]).0 as int == old(self).count()
                    + j,
            forall|j: int|
                0 <= j < T::moves_of(old(self).payload(node.0 as int).model()).len()
                    ==> final(self).payload(old(self).count() + j).model() == T::step_of(
                    old(self).payload(node.0 as int).model(),
                    #[trigger] T::moves_of(old(self).payload(node.0 as int).model())[j],
                ),
            final(self).root_handle() == old(self).root_handle(),
    {
        let ghost t0 = *self;
        let ghost ni = node.0 as int;
        let ghost pm = t0.payload(ni).model();
        let moves = self.get(node).data.get_valid_moves();
        proof {
            T::lemma_terminal(pm);
        }
        let n_moves = moves.len();
        let mut j: usize = 0;
        while j < n_moves
            invariant
                self.game_wf(),
                t0.game_wf(),
                ni == node.0 as int,
                0 <= ni < t0.count(),
                !t0.is_expanded(ni),
                t0.kids(ni).len() == 0,
                moves@ == T::moves_of(pm),
                pm == t0.payload(ni).model(),
                T::inv(pm),
                n_moves == moves@.len(),
                j <= n_moves,
                self.count() == t0.count() + j,
                self.kids(ni).len() == j,
                forall|q: int|
                    0 <= q < j ==> (#[trigger] self.kids(ni)[q]).0 as int == t0.count() + q,
                forall|q: int|
                    0 <= q < j ==> self.payload(t0.count() + q).model() == T::step_of(
                        pm,
                        #[trigger] moves@[q],
                    ),
                forall|i: int|
                    0 <= i < t0.count() && i != ni ==> self.node_at(i) == t0.node_at(i),
                self.node_at(ni) == (Node {
                    children: self.node_at(ni).children,
                    ..t0.node_at(ni)
                }),
                forall|i: int| 0 <= i < t0.count() ==> self.starts_at(i) == t0.starts_at(i),
                forall|i: int|
                    t0.count() <= i < self.count() ==> self.visits(i) == 0 && self.kids(
                        i,
                    ).len() == 0 && self.starts_at(i) == 0,
                self.root_handle() == t0.root_handle(),
            decreases n_moves - j,
        {
            let m = moves[j];
            proof {
                assert(self.payload(ni) == t0.payload(ni));
                assert(T::inv((#[trigger] self.payload(ni)).model()));
                assert(T::moves_of(pm)[j as int] == m);
                assert(T::moves_of(pm).contains(m));
            }
            let st = self.get(node).data.clone_state();
            let child_state = st.do_move(m);
            proof {
                T::lemma_step(pm, m);
            }
            let ghost tpre = *self;
            let c = self.insert(child_state, node);
            proof {
                let ci = c.0 as int;
                assert forall|i: int| 0 <= i < self.count() implies T::inv(
                    (#[trigger] self.payload(i)).model(),
                ) by {
                    if i == ci {
                        assert(self.payload(i) == child_state);
                    } else if i == ni {
                        assert(self.payload(i) == tpre.payload(i));
                        assert(T::inv(tpre.payload(i).model()));
                    } else {
                        assert(self.node_at(i) == tpre.node_at(i));
                        assert(T::inv(tpre.payload(i).model()));
                    }
                }
                assert forall|i: int| 0 < i < self.count() implies child_edge::<T>(
                    self.payload(self.parent_idx(i)).model(),
                    (#[trigger] self.payload(i)).model(),
                ) by {
                    if i == ci {
                        assert(self.parent_idx(i) == ni);
                        assert(self.payload(ni) == tpre.payload(ni));
                        assert(self.payload(ni).model() == pm);
                        assert(T::moves_of(pm).contains(m) && child_state.model() == T::step_of(
                            pm,
                            m,
                        ));
                        assert(child_edge::<T>(pm, child_state.model()));
                    } else {
                        assert(child_edge::<T>(
                            tpre.payload(tpre.parent_idx(i)).model(),
                            tpre.payload(i).model(),
                        ));
                        assert(self.parent_idx(i) == tpre.parent_idx(i));
                        assert(self.payload(i) == tpre.payload(i));
                        assert(self.payload(tpre.parent_idx(i)) == tpre.payload(
                            tpre.parent_idx(i),
                        ));
                    }
                }
            }
            j += 1;
        }
        let ghost t2 = *self;
        proof {
            lemma_first_none(self.slots());
        }
        let p = self.get_mut(node);
        p.expanded = true;
        proof {
            let t3 = *self;
            Self::lemma_wf_set_expanded(&t2, &t3, ni);
            assert forall|i: int| 0 <= i < t3.count() implies T::inv(
                (#[trigger] t3.payload(i)).model(),
            ) by {
                assert(t3.payload(i) == t2.payload(i));
                assert(T::inv(t2.payload(i).model()));
            }
            assert forall|i: int| 0 < i < t3.count() implies child_edge::<T>(
                t3.payload(t3.parent_idx(i)).model(),
                (#[trigger] t3.payload(i)).model(),
            ) by {
                assert(child_edge::<T>(
                    t2.payload(t2.parent_idx(i)).model(),
                    t2.payload(i).model(),
                ));
                assert(t3.parent_idx(i) == t2.parent_idx(i));
                assert(t3.payload(i) == t2.payload(i));
                assert(t3.payload(t2.parent_idx(i)) == t2.payload(t2.parent_idx(i)));
            }
            assert forall|i: int| t0.count() <= i < t3.count() implies t3.visits(i) == 0
                && t3.kids(i).len() == 0 && t3.starts_at(i) == 0 by {
                assert(t3.node_at(i) == t2.node_at(i));
                assert(t2.visits(i) == 0 && t2.kids(i).len() == 0 && t2.starts_at(i) == 0);
            }
            assert forall|i: int| 0 <= i < t0.count() implies t3.visits(i) == t0.visits(i)
                && t3.score2(i) == t0.score2(i) && t3.starts_at(i) == t0.starts_at(i)
                && t3.payload(i) == t0.payload(i) by {
                if i != ni {
                    assert(t3.node_at(i) == t2.node_at(i));
                    assert(t2.node_at(i) == t0.node_at(i));
                }
            }
            assert forall|i: int| 0 <= i < t0.count() && i != ni implies t3.kids(i) == t0.kids(
                i,
            ) by {
                assert(t3.node_at(i) == t2.node_at(i));
                assert(t2.node_at(i) == t0.node_at(i));
            }
            assert(t3.kids(ni) == t2.kids(ni));
            assert forall|q: int| 0 <= q < n_moves implies (#[trigger] t3.kids(ni)[q]).0 as int
                == t0.count() + q by {
                assert((t2.kids(ni)[q]).0 as int == t0.count() + q);
            }
            assert forall|q: int|
                0 <= q < n_moves implies t3.payload(t0.count() + q).model() == T::step_of(
                pm,
                #[trigger] moves@[q],
            ) by {
                assert(t3.node_at(t0.count() + q) == t2.node_at(t0.count() + q));
                assert(t2.payload(t0.count() + q).model() == T::step_of(pm, moves@[q]));
            }
        }
    }

    /// Backpropagate a finished game's result from `node` up to the root,
    /// inclusive: every node on that path gains exactly one visit and the
    /// result's reward from the perspective of the player who moved into
    /// it; every node off the path is untouched. The pass is recorded as
    /// having begun at `node`, so visits stay conserved up the tree.
    pub fn backprop_result(&mut self, node: &NodeRef, result: GameResult)
        requires
            old(self).game_wf(),
            node.0 < old(self).count(),
            !(result is InProgress),
            old(self).visits(0) < 0x4000_0000_0000_0000,
        ensures
            final(self).game_wf(),
            final(self).count() == old(self).count(),
            final(self).root_handle() == old(self).root_handle(),
            final(self).visits(0) as int == old(self).visits(0) + 1,
            forall|i: int|
                0 <= i < old(self).count() ==> {
                    &&& (#[trigger] final(self).visits(i)) as int == old(self).visits(i) + (
                    if old(self).on_chain(node.0 as int, i) {
                        1int
                    } else {
                        0int
                    })
                    &&& final(self).score2(i) as int == old(self).score2(i) + (if old(
                        self,
                    ).on_chain(node.0 as int, i) {
                        reward2(result, T::player_of(old(self).payload(i).model())) as int
                    } else {
                        0int
                    })
                    &&& final(self).kids(i) == old(self).kids(i)
                    &&& final(self).payload(i) == old(self).payload(i)
                    &&& final(self).node_at(i).parent == old(self).node_at(i).parent
                    &&& final(self).is_expanded(i) == old(self).is_expanded(i)
                    &&& final(self).starts_at(i) == old(self).starts_at(i) + (if i == node.0 as int {
                        1nat
                    } else {
                        0nat
                    })
                },
    {
        let ghost t0 = *self;
        let ghost ni = node.0 as int;
        proof {
            self.starts@ = self.starts@.update(ni, (self.starts@[ni] + 1) as nat);
            Self::lemma_chain_bounds(&t0, ni);
        }
        proof {
            assert(self.slots() == t0.slots());
            assert forall|i: int| 0 <= i < t0.count() implies #[trigger] self.node_at(i)
                == t0.node_at(i) by {}
        }
        let mut cur: NodeRef = *node;
        loop
            invariant_except_break
                forall|i: int|
                    0 <= i < t0.count() ==> (#[trigger] self.visits(i)) as int == t0.visits(i)
                        + (if t0.on_chain(ni, i) && !t0.on_chain(cur.0 as int, i) {
                        1int
                    } else {
                        0int
                    }),
                forall|i: int|
                    0 <= i < t0.count() ==> (#[trigger] self.score2(i)) as int == t0.score2(i)
                        + (if t0.on_chain(ni, i) && !t0.on_chain(cur.0 as int, i) {
                        reward2(result, T::player_of(t0.payload(i).model())) as int
                    } else {
                        0int
                    }),
            invariant
                t0.game_wf(),
                ni == node.0 as int,
                0 <= ni < t0.count(),
                !(result is InProgress),
                t0.visits(0) < 0x4000_0000_0000_0000,
                cur.0 as int <= ni,
                t0.on_chain(ni, cur.0 as int),
                self.count() == t0.count(),
                self.slots().len() == t0.slots().len(),
                self.root_handle() == t0.root_handle(),
                forall|i: int|
                    0 <= i < t0.slots().len() ==> ((#[trigger] self.slots()[i]) is Some <==> t0.slots()[i] is Some),
                forall|i: int|
                    0 <= i < t0.count() ==> (#[trigger] self.node_at(i)).children == t0.node_at(
                        i,
                    ).children && self.node_at(i).data == t0.node_at(i).data && self.node_at(
                        i,
                    ).parent == t0.node_at(i).parent && self.node_at(i).expanded == t0.node_at(
                        i,
                    ).expanded,
                self.starts_seq() == t0.starts_seq().update(ni, (t0.starts_at(ni) + 1) as nat),
            ensures
                self.count() == t0.count(),
                self.slots().len() == t0.slots().len(),
                self.root_handle() == t0.root_handle(),
                forall|i: int|
                    0 <= i < t0.slots().len() ==> ((#[trigger] self.slots()[i]) is Some <==> t0.slots()[i] is Some),
                forall|i: int|
                    0 <= i < t0.count() ==> (#[trigger] self.node_at(i)).children == t0.node_at(
                        i,
                    ).children && self.node_at(i).data == t0.node_at(i).data && self.node_at(
                        i,
                    ).parent == t0.node_at(i).parent && self.node_at(i).expanded == t0.node_at(
                        i,
                    ).expanded,
                self.starts_seq() == t0.starts_seq().update(ni, (t0.starts_at(ni) + 1) as nat),
                forall|i: int|
                    0 <= i < t0.count() ==> (#[trigger] self.visits(i)) as int == t0.visits(i)
                        + (if t0.on_chain(ni, i) {
                        1int
                    } else {
                        0int
                    }),
                forall|i: int|
                    0 <= i < t0.count() ==> (#[trigger] self.score2(i)) as int == t0.score2(i)
                        + (if t0.on_chain(ni, i) {
                        reward2(result, T::player_of(t0.payload(i).model())) as int
                    } else {
                        0int
                    }),
            decreases cur.0,
        {
            let ghost ci = cur.0 as int;
            let ghost tpre = *self;
            proof {
                Self::lemma_chain_bounds(&t0, ci);
                assert(t0.on_chain(ci, ci));
                assert(self.visits(ci) == t0.visits(ci));
                assert(self.score2(ci) == t0.score2(ci));
                Self::lemma_chain_visits_le_root(&t0, ni, ci);
                assert(t0.score2(ci) as int <= 2 * t0.visits(ci));
                assert(T::inv((#[trigger] t0.payload(ci)).model()));
                lemma_first_none(t0.slots());
            }
            let n = self.get_mut(&cur);
            let to_move = n.data.player_to_move();
            n.num_plays = n.num_plays + 1;
            let add: u64 = match result {
                GameResult::Draw => 1,
                GameResult::Win(w) => if !(w == to_move) {
                    2
                } else {
                    0
                },
                GameResult::InProgress => 0,
            };
            n.score = n.score + add;
            let parent_opt = n.parent;
            proof {
                assert(add == reward2(result, T::player_of(t0.payload(ci).model())));
                lemma_first_none(t0.slots());
                assert forall|i: int| 0 <= i < t0.slots().len() implies ((
                #[trigger] self.slots()[i]) is Some <==> t0.slots()[i] is Some) by {
                    assert(tpre.slots()[i] is Some <==> t0.slots()[i] is Some);
                }
                lemma_first_none_is(self.slots(), t0.count());
                assert forall|i: int| 0 <= i < t0.count() implies (
                #[trigger] self.node_at(i)).children == t0.node_at(i).children && self.node_at(
                    i,
                ).data == t0.node_at(i).data && self.node_at(i).parent == t0.node_at(i).parent
                    && self.node_at(i).expanded == t0.node_at(i).expanded by {
                    assert(tpre.node_at(i).children == t0.node_at(i).children && tpre.node_at(
                        i,
                    ).data == t0.node_at(i).data && tpre.node_at(i).parent == t0.node_at(
                        i,
                    ).parent && tpre.node_at(i).expanded == t0.node_at(i).expanded);
                }
            }
            match parent_opt {
                Some(p) => {
                    proof {
                        assert(t0.parent_idx(ci) == p.0 as int);
                        assert(ci > 0);
                        assert(0 <= t0.parent_idx(ci) < ci);
                        Self::lemma_chain_parent(&t0, ni, ci);
                        let pi2 = p.0 as int;
                        Self::lemma_chain_bounds(&t0, pi2);
                        assert(!t0.on_chain(pi2, ci));
                        assert(self.visits(ci) as int == t0.visits(ci) + 1);
                        assert(self.score2(ci) as int == t0.score2(ci) + reward2(
                            result,
                            T::player_of(t0.payload(ci).model()),
                        ));
                        assert forall|i: int| 0 <= i < t0.count() implies (
                        #[trigger] self.visits(i)) as int == t0.visits(i) + (if t0.on_chain(
                            ni,
                            i,
                        ) && !t0.on_chain(pi2, i) {
                            1int
                        } else {
                            0int
                        }) by {
                            assert(t0.on_chain(ci, i) <==> (i == ci || t0.on_chain(pi2, i)));
                            if i == ci {
                            } else {
                                assert(tpre.visits(i) == self.visits(i));
                                assert(tpre.visits(i) as int == t0.visits(i) + (if t0.on_chain(
                                    ni,
                                    i,
                                ) && !t0.on_chain(ci, i) {
                                    1int
                                } else {
                                    0int
                                }));
                            }
                        }
                        assert forall|i: int| 0 <= i < t0.count() implies (
                        #[trigger] self.score2(i)) as int == t0.score2(i) + (if t0.on_chain(
                            ni,
                            i,
                        ) && !t0.on_chain(pi2, i) {
                            reward2(result, T::player_of(t0.payload(i).model())) as int
                        } else {
                            0int
                        }) by {
                            assert(t0.on_chain(ci, i) <==> (i == ci || t0.on_chain(pi2, i)));
                            if i == ci {
                            } else {
                                assert(tpre.score2(i) == self.score2(i));
                                assert(tpre.score2(i) as int == t0.score2(i) + (if t0.on_chain(
                                    ni,
                                    i,
                                ) && !t0.on_chain(ci, i) {
                                    reward2(result, T::player_of(t0.payload(i).model())) as int
                                } else {
                                    0int
                                }));
                            }
                        }
                    }
                    cur = p;
                },
                None => {
                    proof {
                        assert(t0.parent_idx(ci) == -1);
                        assert(ci == 0);
                        assert forall|i: int| 0 <= i < t0.count() implies (
                        #[trigger] self.visits(i)) as int == t0.visits(i) + (if t0.on_chain(
                            ni,
                            i,
                        ) {
                            1int
                        } else {
                            0int
                        }) by {
                            assert(t0.on_chain(0, i) <==> i == 0);
                            if i == 0 {
                            } else {
                                assert(tpre.visits(i) == self.visits(i));
                            }
                        }
                        assert forall|i: int| 0 <= i < t0.count() implies (
                        #[trigger] self.score2(i)) as int == t0.score2(i) + (if t0.on_chain(
                            ni,
                            i,
                        ) {
                            reward2(result, T::player_of(t0.payload(i).model())) as int
                        } else {
                            0int
                        }) by {
                            assert(t0.on_chain(0, i) <==> i == 0);
                            if i == 0 {
                            } else {
                                assert(tpre.score2(i) == self.score2(i));
                            }
                        }
                    }
                    break;
                },
            }
        }
        proof {
            let t3 = *self;
            lemma_first_none(t0.slots());
            // conservation: along the path each node gained one visit and
            // exactly its one path child's count rose by one; the pass
            // itself is charged to `node`; off the path nothing moved
            assert forall|i: int| 0 <= i < t3.count() implies (#[trigger] t3.visits(i)) as int
                == t3.starts_at(i) + t3.sum_visits(t3.kids(i)) by {
                assert(t0.visits(i) as int == t0.starts_at(i) + t0.sum_visits(t0.kids(i)));
                assert(t3.kids(i) == t0.kids(i));
                if !t0.on_chain(ni, i) {
                    assert forall|k: int| 0 <= k < t0.kids(i).len() implies t0.visits(
                        (#[trigger] t0.kids(i)[k]).0 as int,
                    ) == t3.visits(t0.kids(i)[k].0 as int) by {
                        let c = t0.kids(i)[k];
                        assert(t0.kids(i).contains(c));
                        if t0.on_chain(ni, c.0 as int) {
                            Self::lemma_chain_kid_up(&t0, ni, i, c);
                            assert(false);
                        }
                    }
                    Self::lemma_sum_congruent(&t0, &t3, t0.kids(i));
                } else if i == ni {
                    assert forall|k: int| 0 <= k < t0.kids(i).len() implies t0.visits(
                        (#[trigger] t0.kids(i)[k]).0 as int,
                    ) == t3.visits(t0.kids(i)[k].0 as int) by {
                        let c = t0.kids(i)[k];
                        assert(i < c.0);
                        if t0.on_chain(ni, c.0 as int) {
                            Self::lemma_chain_bounds(&t0, ni);
                            assert(false);
                        }
                    }
                    Self::lemma_sum_congruent(&t0, &t3, t0.kids(i));
                } else {
                    let c = Self::lemma_chain_has_kid(&t0, ni, i);
                    assert forall|k: int|
                        0 <= k < t0.kids(i).len() && (#[trigger] t0.kids(i)[k]) != c implies
                        t0.visits(t0.kids(i)[k].0 as int) == t3.visits(
                            t0.kids(i)[k].0 as int,
                        ) by {
                        let x = t0.kids(i)[k];
                        assert(t0.kids(i).contains(x));
                        if t0.on_chain(ni, x.0 as int) {
                            Self::lemma_chain_kid_unique(&t0, ni, i, x, c);
                            assert(false);
                        }
                    }
                    Self::lemma_sum_bump(&t0, &t3, t0.kids(i), c);
                }
            }
            assert forall|i: int| 0 <= i < t3.count() implies (#[trigger] t3.score2(i)) as int
                <= 2 * t3.visits(i) by {
                assert(t0.score2(i) as int <= 2 * t0.visits(i));
            }
            assert forall|i: int| 0 <= i < t3.count() implies ((#[trigger] t3.parent_idx(i))
                == -1 <==> i == 0) by {
                assert(t0.parent_idx(i) == -1 <==> i == 0);
            }
            assert forall|i: int| 0 < i < t3.count() implies 0 <= #[trigger] t3.parent_idx(i)
                < i by {
                assert(0 <= t0.parent_idx(i) < i);
            }
            assert forall|i: int, k: int|
                0 <= i < t3.count() && 0 <= k < t3.kids(i).len() implies i < (
            #[trigger] t3.kids(i)[k]).0 < t3.count() && t3.parent_idx(t3.kids(i)[k].0 as int)
                == i by {
                assert(t3.kids(i)[k] == t0.kids(i)[k]);
                assert(i < t0.kids(i)[k].0 < t0.count() && t0.parent_idx(
                    t0.kids(i)[k].0 as int,
                ) == i);
            }
            assert forall|i: int, a: int, b: int|
                0 <= i < t3.count() && 0 <= a < b < t3.kids(i).len() implies (
            #[trigger] t3.kids(i)[a]) != (#[trigger] t3.kids(i)[b]) by {
                assert(t0.kids(i)[a] != t0.kids(i)[b]);
            }
            assert forall|j: int| 0 < j < t3.count() implies #[trigger] t3.linked_up(j) by {
                assert(t0.linked_up(j));
                let pj = t0.parent_idx(j);
                let w = choose|w: int|
                    0 <= w < t0.kids(pj).len() && t0.kids(pj)[w] == NodeRef(j as usize);
                assert(t3.kids(pj)[w] == NodeRef(j as usize));
                assert(t3.kids(pj).contains(NodeRef(j as usize)));
            }
            assert forall|i: int|
                0 <= i < t3.count() && #[trigger] t3.is_expanded(i) implies t3.kids(i).len()
                > 0 by {
                assert(t0.is_expanded(i) ==> t0.kids(i).len() > 0);
            }
            assert forall|i: int| t3.count() <= i < t3.slots().len() implies t3.slots()[i]
                is None by {
                assert(t0.slots()[i] is None);
            }
            assert(t3.wf());
            assert forall|i: int| 0 <= i < t3.count() implies T::inv(
                (#[trigger] t3.payload(i)).model(),
            ) by {
                assert(T::inv((#[trigger] t0.payload(i)).model()));
            }
            assert forall|i: int| 0 < i < t3.count() implies child_edge::<T>(
                t3.payload(t3.parent_idx(i)).model(),
                (#[trigger] t3.payload(i)).model(),
            ) by {
                assert(child_edge::<T>(
                    t0.payload(t0.parent_idx(i)).model(),
                    (#[trigger] t0.payload(i)).model(),
                ));
                assert(t3.parent_idx(i) == t0.parent_idx(i));
                assert(t3.payload(t0.parent_idx(i)) == t0.payload(t0.parent_idx(i)));
            }
        }
    }

    /// Play the position at `node` to its end, both sides choosing
    /// uniformly random moves drawn from two players seeded off `rng`.
    pub fn simulate_node(&self, node: &NodeRef, rng: &mut rand::rngs::StdRng) -> (r:
        GameResult)
        requires
            self.game_wf(),
            node.0 < self.count(),
        ensures
            !(r is InProgress),
            // the result really is the outcome of a playout from this
            // node's position; an already-terminal position yields its own
            // classification
            crate::games::game_outcome::<T>(self.payload(node.0 as int).model(), r),
            !(T::result_of(self.payload(node.0 as int).model()) is InProgress) ==> r
                == T::result_of(self.payload(node.0 as int).model()),
    {
        let mut a = RandomPlayer::from_seed(rng_u64(rng));
        let mut b = RandomPlayer::from_seed(rng_u64(rng));
        proof {
            assert(T::inv((#[trigger] self.payload(node.0 as int)).model()));
        }
        let st = self.get(node).data.clone_state();
        play(st, &mut a, &mut b)
    }
}

impl<T> ArenaTree<T> {
    /// Visit-count conservation: in a well-formed tree every node's visit
    /// count is the number of backpropagation passes that began at it plus
    /// the sum of its children's visit counts — visits are conserved up the
    /// tree. Together with `backprop_result`'s contract (each pass adds one
    /// visit to the root), the root's visit count is exactly the number of
    /// completed passes.
    pub proof fn lemma_visit_conservation(t: &Self, i: int)
        requires
            t.wf(),
            0 <= i < t.count(),
        ensures
            t.visits(i) as int == t.starts_at(i) + t.sum_visits(t.kids(i)),
    {
    }

    /// Score boundedness: every node's accumulated score lies within
    /// [0, visit count] in points — rewards per visit are 0, a half, or
    /// one point, held here as 0, 1 or 2 half-points.
    pub proof fn lemma_score_bounded(t: &Self, i: int)
        requires
            t.wf(),
            0 <= i < t.count(),
        ensures
            0 <= t.score2(i) as int,
            t.score2(i) as int <= 2 * t.visits(i),
    {
    }

    /// Monotonic exploration: an unvisited child always holds the
    /// unreachable top UCB1 rank, and every visited child ranks strictly
    /// below it, whatever the parent's visit count; `select_best_child`
    /// therefore picks an unvisited child whenever one exists.
    /// The final-pick order on two nodes' statistics: `i` ranks no higher
    /// than `j` when `j`'s plain average score/visits is at least `i`'s,
    /// compared exactly by cross-multiplication. Every visited node
    /// outranks every unvisited one, and unvisited nodes rank equal.
    pub open spec fn final_rank_le(&self, i: int, j: int) -> bool {
        if self.visits(i) == 0 {
            true
        } else if self.visits(j) == 0 {
            false
        } else {
            self.score2(i) * self.visits(j) <= self.score2(j) * self.visits(i)
        }
    }

    /// The final-pick order is transitive.
    proof fn lemma_final_rank_trans(t: &Self, a: int, b: int, c: int)
        requires
            t.final_rank_le(a, b),
            t.final_rank_le(b, c),
        ensures
            t.final_rank_le(a, c),
    {
        if t.visits(a) > 0 {
            assert(t.visits(b) > 0);
            assert(t.visits(c) > 0);
            assert(t.score2(a) * t.visits(c) <= t.score2(c) * t.visits(a))
                by (nonlinear_arith)
                requires
                    t.visits(a) > 0,
                    t.visits(b) > 0,
                    t.visits(c) > 0,
                    t.score2(a) >= 0,
                    t.score2(b) >= 0,
                    t.score2(c) >= 0,
                    t.score2(a) * t.visits(b) <= t.score2(b) * t.visits(a),
                    t.score2(b) * t.visits(c) <= t.score2(c) * t.visits(b),
            ;
        }
    }

    /// The root child ranked best for the final pick: its plain average
    /// score/visits is at least every sibling's, compared exactly by
    /// cross-multiplication; an unvisited child never beats a visited one,
    /// and the first of equals wins.
    pub fn best_root_child(&self) -> (r: NodeRef)
        requires
            self.wf(),
            self.kids(0).len() >= 1,
        ensures
            self.kids(0).contains(r),
            0 < r.0 < self.count(),
            forall|k: int|
                0 <= k < self.kids(0).len() ==> self.final_rank_le(
                    (#[trigger] self.kids(0)[k]).0 as int,
                    r.0 as int,
                ),
    {
        let rr = self.root_ref();
        let kids_len = self.children_of(&rr).len();
        let mut best = self.children_of(&rr)[0];
        proof {
            assert(self.kids(0).contains(self.kids(0)[0]));
            assert(0 < (#[trigger] self.kids(0)[0]).0 < self.count());
        }
        let mut k: usize = 1;
        while k < kids_len
            invariant
                self.wf(),
                rr == (NodeRef(0usize)),
                kids_len == self.kids(0).len(),
                1 <= kids_len,
                k <= kids_len,
                self.kids(0).contains(best),
                0 < best.0 < self.count(),
                forall|q: int|
                    0 <= q < k ==> self.final_rank_le(
                        (#[trigger] self.kids(0)[q]).0 as int,
                        best.0 as int,
                    ),
            decreases kids_len - k,
        {
            let c = self.children_of(&rr)[k];
            proof {
                assert(self.kids(0).contains(self.kids(0)[k as int]));
                assert(0 < (#[trigger] self.kids(0)[k as int]).0 < self.count());
            }
            let cn = self.get(&c).num_plays;
            let cs = self.get(&c).score;
            let bn = self.get(&best).num_plays;
            let bs = self.get(&best).score;
            proof {
                assert((cs as int) * (bn as int) <= 0xFFFF_FFFF_FFFF_FFFF
                    * 0xFFFF_FFFF_FFFF_FFFF) by (nonlinear_arith)
                    requires
                        0 <= cs <= 0xFFFF_FFFF_FFFF_FFFF,
                        0 <= bn <= 0xFFFF_FFFF_FFFF_FFFF,
                ;
                assert((bs as int) * (cn as int) <= 0xFFFF_FFFF_FFFF_FFFF
                    * 0xFFFF_FFFF_FFFF_FFFF) by (nonlinear_arith)
                    requires
                        0 <= bs <= 0xFFFF_FFFF_FFFF_FFFF,
                        0 <= cn <= 0xFFFF_FFFF_FFFF_FFFF,
                ;
            }
            if cn > 0 && (bn == 0 || (cs as u128) * (bn as u128) > (bs as u128) * (cn
                as u128)) {
                proof {
                    assert(self.final_rank_le(best.0 as int, c.0 as int));
                    assert forall|q: int| 0 <= q < k + 1 implies self.final_rank_le(
                        (#[trigger] self.kids(0)[q]).0 as int,
                        c.0 as int,
                    ) by {
                        if q < k {
                            Self::lemma_final_rank_trans(
                                self,
                                self.kids(0)[q].0 as int,
                                best.0 as int,
                                c.0 as int,
                            );
                        }
                    }
                }
                best = c;
            } else {
                proof {
                    assert(self.final_rank_le(c.0 as int, best.0 as int));
                }
            }
            k += 1;
        }
        best
    }

    pub proof fn lemma_unvisited_preferred(t: &Self, c2: nat, i: int, c: NodeRef)
        requires
            t.wf(),
            c2 <= MAX_EXPLORATION,
            0 <= i < t.count(),
            t.kids(i).contains(c),
        ensures
            t.visits(c.0 as int) == 0 ==> t.node_ucb(c2, c.0 as int) == UCB_INF as nat,
            t.visits(c.0 as int) > 0 ==> t.node_ucb(c2, c.0 as int) < UCB_INF as nat,
    {
        let ci = c.0 as int;
        let w = choose|w: int| 0 <= w < t.kids(i).len() && t.kids(i)[w] == c;
        assert(t.parent_idx(ci) == i);
        if t.visits(ci) > 0 {
            Self::lemma_child_visits_le(t, i, c);
            assert(t.score2(ci) as int <= 2 * t.visits(ci));
            crate::players::mcts::ucb::lemma_ucb_bounded(
                c2,
                t.score2(ci) as nat,
                t.visits(ci) as nat,
                t.visits(i) as nat,
            );
        }
    }
}

/// The Monte Carlo Tree Search agent: each decision builds a fresh search
/// tree seeded with the current position and runs `iterations - 1` passes
/// of selection, expansion, random simulation and backpropagation over it,
/// then plays the root child with the best win-rate average.
pub struct MCTSPlayer {
    iterations: usize,
    /// Exploration constant of the in-tree UCB1 selection, in Q16;
    /// sqrt(2)/2 by default.
    exploration: u64,
    rng: rand::rngs::StdRng,
}

impl MCTSPlayer {
    /// The configured search budget.
    pub closed spec fn spec_iterations(&self) -> usize {
        self.iterations
    }

    /// The configured exploration constant, in Q16.
    pub closed spec fn spec_exploration(&self) -> u64 {
        self.exploration
    }

    /// An agent with the given search budget, drawing randomness from
    /// thread-local entropy. The budget is capped so that visit and score
    /// counters can never overflow.
    pub fn new(iterations: usize) -> (p: MCTSPlayer)
        requires
            iterations <= 0x4000_0000_0000_0000,
        ensures
            p.ready(),
            p.spec_iterations() == iterations,
            p.spec_exploration() == DEFAULT_EXPLORATION,
    {
        MCTSPlayer {
            iterations,
            exploration: DEFAULT_EXPLORATION,
            rng: rng_from_seed(entropy_seed()),
        }
    }

    /// The same agent with a fixed seed: its searches are reproducible.
    pub fn from_seed(iterations: usize, seed: u64) -> (p: MCTSPlayer)
        requires
            iterations <= 0x4000_0000_0000_0000,
        ensures
            p.ready(),
            p.spec_iterations() == iterations,
            p.spec_exploration() == DEFAULT_EXPLORATION,
    {
        MCTSPlayer { iterations, exploration: DEFAULT_EXPLORATION, rng: rng_from_seed(seed) }
    }

    /// A seeded agent with its own exploration constant (in Q16).
    pub fn with_exploration(iterations: usize, seed: u64, exploration: u64) -> (p: MCTSPlayer)
        requires
            iterations <= 0x4000_0000_0000_0000,
            exploration <= MAX_EXPLORATION,
        ensures
            p.ready(),
            p.spec_iterations() == iterations,
            p.spec_exploration() == exploration,
    {
        MCTSPlayer { iterations, exploration, rng: rng_from_seed(seed) }
    }
}

impl GamePlayer for MCTSPlayer {
    closed spec fn ready(&self) -> bool {
        self.iterations <= 0x4000_0000_0000_0000 && self.exploration <= MAX_EXPLORATION
    }

    fn choose_move<Game: GameState>(&mut self, game_state: &Game) -> (r: Game::Move) {
        let ghost m0 = game_state.model();
        let mut tree: ArenaTree<Game> = ArenaTree::new(game_state.clone_state(), self.iterations);
        proof {
            assert(tree.game_wf());
        }
        let mut it: usize = 1;
        while it < self.iterations
            invariant
                tree.game_wf(),
                Game::inv(m0),
                Game::result_of(m0) is InProgress,
                tree.payload(0).model() == m0,
                tree.visits(0) as int <= it - 1,
                1 <= it,
                self.iterations <= 0x4000_0000_0000_0000,
                self.exploration <= MAX_EXPLORATION,
            decreases self.iterations - it,
        {
            let leaf = tree.select_leaf_node(self.exploration);
            let ghost li = leaf.0 as int;
            if !tree.is_node_termnial(&leaf) {
                proof {
                    assert(!(#[trigger] tree.is_expanded(li)));
                }
                tree.create_children_for(&leaf);
                let n_kids = tree.children_of(&leaf).len();
                let pick = rng_below(&mut self.rng, n_kids);
                let node_to_simulate = tree.children_of(&leaf)[pick];
                let result = tree.simulate_node(&node_to_simulate, &mut self.rng);
                tree.backprop_result(&leaf, result);
            } else {
                proof {
                    assert(Game::inv((#[trigger] tree.payload(li)).model()));
                }
                let res = tree.get(&leaf).data.check_win();
                tree.backprop_result(&leaf, res);
            }
            it += 1;
        }
        let rr = tree.root_ref();
        if tree.children_of(&rr).len() == 0 {
            // too small a budget ever expanded the root: expand it now, so
            // that a legal move is always produced
            proof {
                assert(!(#[trigger] tree.is_expanded(0)));
            }
            tree.create_children_for(&rr);
        }
        // final pick: the root child with the best plain exploitation
        // average, per best_root_child's contract
        let best = tree.best_root_child();
        let ghost bi = best.0 as int;
        proof {
            assert(child_edge::<Game>(
                tree.payload(tree.parent_idx(bi)).model(),
                (#[trigger] tree.payload(bi)).model(),
            ));
            let w = choose|w: int| 0 <= w < tree.kids(0).len() && tree.kids(0)[w] == best;
            assert(tree.parent_idx(bi) == 0);
        }
        let ghost mv = choose|mv: Game::Move|
            #![auto]
            Game::moves_of(m0).contains(mv) && tree.payload(bi).model() == Game::step_of(
                m0,
                mv,
            );
        proof {
            Game::lemma_step(m0, mv);
            assert(Game::last_of(tree.payload(bi).model()) == Some(mv));
            assert(Game::inv((#[trigger] tree.payload(bi)).model()));
        }
        let r = match tree.get(&best).data.last_move() {
            Some(m) => m,
            None => unreached(),
        };
        r
    }
}

} // verus!
