//! The search tree: all nodes in one sequence, parent and children named by
//! their places in it. The root is at place 0 and every node comes after its
//! parent, so the walk from a node to the root only ever goes to smaller
//! places.

use crate::action::Action;
use crate::geometry::{Geometry, GeometryView};
use crate::node::{first_best, TreeNode, TreeNodeView};
use crate::random::RandomSource;
use crate::state::State;
use vstd::prelude::*;

verus! {

/// Scores a child for selection. The library asks for one priority per child
/// that has been visited and selects the child with the largest; `None`
/// marks a child that must not be selected.
///
/// The usual score is the upper confidence bound
/// `wins / visits + c * sqrt(ln(parent_visits) / visits)`, mapped to integers
/// so that a larger bound gives a larger priority.
///
/// A scorer has no hidden input: what `score` returns is the function
/// `spec_score` of the counters it is given. [`WinRatio`] is held to this by
/// proof. A scorer written outside the library defines `spec_score` as what
/// its `score` computes, and the library takes its word for it.
pub trait UctScorer {
    /// The priority that the scorer gives to a child with the given
    /// counters.
    spec fn spec_score(
        &self,
        wins: u64,
        visits: u64,
        parent_visits: u64,
        exploration_constant: u32,
    ) -> Option<u64>;

    /// The priority of a child with the given counters under a parent with
    /// `parent_visits` visits. The exploration constant is in thousandths.
    fn score(&self, wins: u64, visits: u64, parent_visits: u64, exploration_constant: u32) -> (priority:
        Option<u64>)
        requires
            visits >= 1,
        ensures
            priority == self.spec_score(wins, visits, parent_visits, exploration_constant),
    ;
}

/// The share of won rollouts among `visits` rollouts, as a fraction of 2^32
/// rounded down and capped at the largest `u64`.
pub open spec fn win_ratio(wins: u64, visits: u64) -> u64 {
    if (wins * 0x1_0000_0000) / (visits as int) > u64::MAX {
        u64::MAX
    } else {
        ((wins * 0x1_0000_0000) / (visits as int)) as u64
    }
}

/// The scorer without exploration: a child's priority is its share of won
/// rollouts. This is the upper confidence bound with exploration constant
/// zero, computed in integers.
pub struct WinRatio;

impl UctScorer for WinRatio {
    open spec fn spec_score(
        &self,
        wins: u64,
        visits: u64,
        parent_visits: u64,
        exploration_constant: u32,
    ) -> Option<u64> {
        Some(win_ratio(wins, visits))
    }

    fn score(&self, wins: u64, visits: u64, parent_visits: u64, exploration_constant: u32) -> (priority:
        Option<u64>) {
        let scaled: u128 = (wins as u128) * 0x1_0000_0000u128;
        let ratio: u128 = scaled / (visits as u128);
        if ratio > u64::MAX as u128 {
            Some(u64::MAX)
        } else {
            Some(ratio as u64)
        }
    }
}

/// The mathematical content of a [`SearchTree`].
#[verifier::ext_equal]
pub struct SearchTreeView {
    /// The nodes, the root first.
    pub nodes: Seq<TreeNodeView>,
    /// For each rollout counted so far, the node it started from.
    pub rollouts: Seq<usize>,
}

impl SearchTreeView {
    /// The number of nodes.
    pub open spec fn len(self) -> nat {
        self.nodes.len()
    }

    /// `k` is `node` or one of its ancestors.
    pub open spec fn on_path(self, k: int, node: int) -> bool
        decreases node,
    {
        k == node || (node > 0 && self.nodes[node].parent is Some && self.nodes[node].parent->0
            < node && self.on_path(k, self.nodes[node].parent->0 as int))
    }

    /// The number of rollouts in `log` whose walk to the root passes
    /// through `k`.
    pub open spec fn passes(self, k: int, log: Seq<usize>) -> nat
        decreases log.len(),
    {
        if log.len() == 0 {
            0
        } else {
            self.passes(k, log.drop_last()) + if self.on_path(k, log.last() as int) {
                1nat
            } else {
                0nat
            }
        }
    }

    /// Node `c` comes after its parent and is listed among its parent's
    /// children.
    pub open spec fn linked_up(self, c: int) -> bool {
        &&& self.nodes[c].parent is Some
        &&& self.nodes[c].parent->0 < c
        &&& self.nodes[self.nodes[c].parent->0 as int].children.contains(c as usize)
    }

    /// Child `k` of node `p` is a later node that names `p` as its parent,
    /// and it comes after the child listed before it.
    pub open spec fn linked_down(self, p: int, k: int) -> bool {
        &&& p < self.nodes[p].children[k] < self.nodes.len()
        &&& self.nodes[self.nodes[p].children[k] as int].parent == Some(p as usize)
        &&& k > 0 ==> self.nodes[p].children[k - 1] < self.nodes[p].children[k]
    }

    /// Parents and children agree: the root has no parent, every other node
    /// comes after its parent and is listed among its parent's children, and
    /// every listed child names this node as its parent. Children are listed
    /// in the order of their places.
    pub open spec fn links_wf(self) -> bool {
        &&& 1 <= self.nodes.len() <= usize::MAX
        &&& self.nodes[0].parent is None
        &&& forall|c: int| 1 <= c < self.nodes.len() ==> #[trigger] self.linked_up(c)
        &&& forall|p: int, k: int|
            0 <= p < self.nodes.len() && 0 <= k < self.nodes[p].children.len()
                ==> #[trigger] self.linked_down(p, k)
    }

    /// The number of rollouts in `log` that pass through one of the first
    /// `count` children of `k`.
    pub open spec fn passes_below(self, k: int, count: nat, log: Seq<usize>) -> nat
        decreases count,
    {
        if count == 0 {
            0
        } else {
            self.passes_below(k, (count - 1) as nat, log) + self.passes(
                self.nodes[k].children[count - 1] as int,
                log,
            )
        }
    }

    /// The visits of the first `count` children of `k`, summed.
    pub open spec fn children_visits(self, k: int, count: nat) -> nat
        decreases count,
    {
        if count == 0 {
            0
        } else {
            self.children_visits(k, (count - 1) as nat)
                + self.nodes[self.nodes[k].children[count - 1] as int].visits as nat
        }
    }

    /// How many of the first `count` children of `k` are on the walk from
    /// `x` to the root.
    pub open spec fn children_on_path(self, k: int, count: nat, x: int) -> nat
        decreases count,
    {
        if count == 0 {
            0
        } else {
            self.children_on_path(k, (count - 1) as nat, x) + if self.on_path(
                self.nodes[k].children[count - 1] as int,
                x,
            ) {
                1nat
            } else {
                0nat
            }
        }
    }

    /// Node `k` has exactly as many visits as counted rollouts pass through
    /// it.
    pub open spec fn visits_counted(self, k: int) -> bool {
        self.nodes[k].visits == self.passes(k, self.rollouts)
    }

    /// Every counted rollout started from a node of the tree, and every node
    /// has exactly as many visits as counted rollouts pass through it.
    pub open spec fn counted(self) -> bool {
        &&& forall|i: int|
            0 <= i < self.rollouts.len() ==> (#[trigger] self.rollouts[i]) < self.nodes.len()
        &&& forall|k: int| 0 <= k < self.nodes.len() ==> #[trigger] self.visits_counted(k)
    }

    /// Node `k` is consistent, its board has the size of the root's, and it
    /// has exactly as many visits as counted rollouts pass through it.
    pub open spec fn node_wf(self, k: int) -> bool {
        &&& self.nodes[k].wf()
        &&& self.nodes[k].state.board.size() == self.nodes[0].state.board.size()
        &&& self.nodes[k].visits == self.passes(k, self.rollouts)
    }

    /// The tree is consistent: its links are, every node is, and every
    /// counted rollout started from a node of the tree.
    pub open spec fn wf(self) -> bool {
        &&& self.links_wf()
        &&& forall|k: int| 0 <= k < self.nodes.len() ==> #[trigger] self.node_wf(k)
        &&& forall|i: int|
            0 <= i < self.rollouts.len() ==> (#[trigger] self.rollouts[i]) < self.nodes.len()
    }

    /// Node `c` holds the state that an action open in its parent's state
    /// leads to.
    pub open spec fn reached_by_play(self, g: GeometryView, c: int) -> bool {
        exists|a: Action|
            self.nodes[self.nodes[c].parent->0 as int].state.possible_actions(g).contains(a)
                && self.nodes[c].state == #[trigger] self.nodes[self.nodes[c].parent->0 as int].state.play(
                a,
            )
    }

    /// The tree is a tree of the game played on grid `g`: every pool holds
    /// only actions open in its node's state, and every node but the root
    /// holds the state that an action open in its parent's state leads to.
    pub open spec fn legal(self, g: GeometryView) -> bool {
        &&& forall|k: int| 0 <= k < self.nodes.len() ==> #[trigger] self.nodes[k].pool_legal(g)
        &&& forall|c: int| 1 <= c < self.nodes.len() ==> #[trigger] self.reached_by_play(g, c)
    }

    /// The tree after a rollout from `node` with the given result has been
    /// counted at `node` and at each of its ancestors up to the root.
    pub open spec fn backpropagated(self, node: int, result: (u16, u16)) -> SearchTreeView {
        SearchTreeView {
            nodes: Seq::new(
                self.nodes.len(),
                |k: int|
                    if self.on_path(k, node) {
                        self.nodes[k].record(result)
                    } else {
                        self.nodes[k]
                    },
            ),
            rollouts: self.rollouts.push(node as usize),
        }
    }

    /// The tree after `node` has been expanded with entry `i` of its pool:
    /// the entry has left the pool, and the child it leads to stands at the
    /// end of the tree, listed last among the children of `node`.
    pub open spec fn grown(self, g: GeometryView, node: int, i: int) -> SearchTreeView {
        let parent = self.nodes[node];
        let child = TreeNodeView::fresh(
            parent.state.play(parent.pool(g)[i]),
            parent.exploration_constant,
        );
        SearchTreeView {
            nodes: self.nodes.update(
                node,
                TreeNodeView {
                    untried_actions: Some(parent.pool(g).remove(i)),
                    children: parent.children.push(self.nodes.len() as usize),
                    ..parent
                },
            ).push(TreeNodeView { parent: Some(node as usize), ..child }),
            ..self
        }
    }

    /// The tree after `node` has been found to have no action left to try.
    pub open spec fn exhausted(self, node: int) -> SearchTreeView {
        SearchTreeView {
            nodes: self.nodes.update(
                node,
                TreeNodeView { untried_actions: Some(Seq::empty()), ..self.nodes[node] },
            ),
            ..self
        }
    }

    /// The visit and win counters of the children of `node`, child after
    /// child.
    pub open spec fn child_counters(self, node: int) -> Seq<(u64, u64)> {
        Seq::new(
            self.nodes[node].children.len(),
            |k: int|
                (
                    self.nodes[self.nodes[node].children[k] as int].visits,
                    self.nodes[self.nodes[node].children[k] as int].wins,
                ),
        )
    }

    /// The priorities under which `scorer` selects among the children of
    /// `node`: none for a child without visits, and for any other child what
    /// the scorer gives for the child's wins and visits, the visits of
    /// `node` and its exploration constant.
    pub open spec fn scored<S: UctScorer>(self, node: int, scorer: S) -> Seq<Option<u64>> {
        Seq::new(
            self.nodes[node].children.len(),
            |k: int|
                if self.nodes[self.nodes[node].children[k] as int].visits == 0 {
                    None
                } else {
                    scorer.spec_score(
                        self.nodes[self.nodes[node].children[k] as int].wins,
                        self.nodes[self.nodes[node].children[k] as int].visits,
                        self.nodes[node].visits,
                        self.nodes[node].exploration_constant,
                    )
                },
        )
    }

    /// The child of `node` selected under `priorities`.
    pub open spec fn selected(self, node: int, priorities: Seq<Option<u64>>) -> Option<usize> {
        match first_best(priorities) {
            Some(k) => Some(self.nodes[node].children[k]),
            None => None,
        }
    }

    /// The robust child of the root: the first child with the most visits
    /// and, among those, the most wins.
    pub open spec fn best_child(self) -> Option<usize> {
        match most_visited(self.child_counters(0)) {
            Some(k) => Some(self.nodes[0].children[k]),
            None => None,
        }
    }

    /// The action that leads to the robust child of the root.
    pub open spec fn best_action(self) -> Option<Action> {
        match self.best_child() {
            Some(c) => self.nodes[c as int].state.last_action,
            None => None,
        }
    }
}

/// Whether counters `a` beat counters `b`: more visits, or as many visits
/// and more wins.
pub open spec fn beats(a: (u64, u64), b: (u64, u64)) -> bool {
    a.0 > b.0 || (a.0 == b.0 && a.1 > b.1)
}

/// The first place whose counters no other place beats.
pub open spec fn most_visited(counters: Seq<(u64, u64)>) -> Option<int>
    decreases counters.len(),
{
    if counters.len() == 0 {
        None
    } else {
        match most_visited(counters.drop_last()) {
            None => Some(counters.len() - 1),
            Some(k) => if beats(counters.last(), counters[k]) {
                Some(counters.len() - 1)
            } else {
                Some(k)
            },
        }
    }
}

/// `most_visited` names a place whose counters no place beats and no earlier
/// place equals; it names none only if there is no place.
pub proof fn lemma_most_visited(counters: Seq<(u64, u64)>)
    ensures
        match most_visited(counters) {
            Some(k) => {
                &&& 0 <= k < counters.len()
                &&& forall|j: int| 0 <= j < counters.len() ==> !beats(#[trigger] counters[j], counters[k])
                &&& forall|j: int| 0 <= j < k ==> beats(counters[k], #[trigger] counters[j])
            },
            None => counters.len() == 0,
        },
    decreases counters.len(),
{
    if counters.len() > 0 {
        let front = counters.drop_last();
        lemma_most_visited(front);
        assert forall|j: int| 0 <= j < front.len() implies front[j] == counters[j] by {}
    }
}

/// Selection has no hidden input: two trees in which `node` has the same
/// visits and exploration constant and lists the same children with the same
/// wins and visits select the same child under the same scorer.
pub proof fn lemma_selection_deterministic<S: UctScorer>(
    t: SearchTreeView,
    u: SearchTreeView,
    node: int,
    scorer: S,
)
    requires
        t.nodes[node].children == u.nodes[node].children,
        t.nodes[node].visits == u.nodes[node].visits,
        t.nodes[node].exploration_constant == u.nodes[node].exploration_constant,
        forall|k: int|
            0 <= k < t.nodes[node].children.len() ==> {
                &&& t.nodes[(#[trigger] t.nodes[node].children[k]) as int].wins
                    == u.nodes[t.nodes[node].children[k] as int].wins
                &&& t.nodes[t.nodes[node].children[k] as int].visits
                    == u.nodes[t.nodes[node].children[k] as int].visits
            },
    ensures
        t.scored(node, scorer) == u.scored(node, scorer),
        t.selected(node, t.scored(node, scorer)) == u.selected(node, u.scored(node, scorer)),
{
    assert(t.scored(node, scorer) =~= u.scored(node, scorer));
}

/// The root is on the walk from every node.
pub proof fn lemma_root_on_path(t: SearchTreeView, node: int)
    requires
        t.links_wf(),
        0 <= node < t.len(),
    ensures
        t.on_path(0, node),
    decreases node,
{
    if node > 0 {
        assert(t.linked_up(node));
        lemma_root_on_path(t, t.nodes[node].parent->0 as int);
    }
}

/// Only a node or something before it is on the walk from the node.
pub proof fn lemma_on_path_before(t: SearchTreeView, k: int, node: int)
    requires
        0 <= node,
        t.on_path(k, node),
    ensures
        0 <= k <= node,
    decreases node,
{
    if k != node {
        lemma_on_path_before(t, k, t.nodes[node].parent->0 as int);
    }
}

/// Two trees whose nodes up to `node` have the same parents have the same
/// walk from `node`.
pub proof fn lemma_on_path_same_links(t: SearchTreeView, u: SearchTreeView, k: int, node: int)
    requires
        0 <= node,
        forall|j: int| 0 <= j <= node ==> (#[trigger] t.nodes[j]).parent == u.nodes[j].parent,
    ensures
        t.on_path(k, node) == u.on_path(k, node),
    decreases node,
{
    assert(t.nodes[node].parent == u.nodes[node].parent);
    if k != node && node > 0 && t.nodes[node].parent is Some && t.nodes[node].parent->0 < node {
        lemma_on_path_same_links(t, u, k, t.nodes[node].parent->0 as int);
    }
}

/// Two trees that agree on the parents of all nodes named in `log` count the
/// same rollouts through `k`.
pub proof fn lemma_passes_same_links(t: SearchTreeView, u: SearchTreeView, k: int, log: Seq<usize>)
    requires
        t.len() <= u.len(),
        forall|j: int| 0 <= j < t.len() ==> (#[trigger] t.nodes[j]).parent == u.nodes[j].parent,
        forall|i: int| 0 <= i < log.len() ==> (#[trigger] log[i]) < t.len(),
    ensures
        t.passes(k, log) == u.passes(k, log),
    decreases log.len(),
{
    if log.len() > 0 {
        lemma_passes_same_links(t, u, k, log.drop_last());
        assert(log[log.len() - 1] < t.len());
        lemma_on_path_same_links(t, u, k, log.last() as int);
    }
}

/// No rollout passes through a node that comes after every node named in
/// the log.
pub proof fn lemma_passes_none(t: SearchTreeView, k: int, log: Seq<usize>)
    requires
        forall|i: int| 0 <= i < log.len() ==> (#[trigger] log[i]) < k,
    ensures
        t.passes(k, log) == 0,
    decreases log.len(),
{
    if log.len() > 0 {
        lemma_passes_none(t, k, log.drop_last());
        assert(log[log.len() - 1] < k);
        if t.on_path(k, log.last() as int) {
            lemma_on_path_before(t, k, log.last() as int);
        }
    }
}

/// Every counted rollout passes through the root, and through no node more
/// often than through the root.
pub proof fn lemma_passes_root(t: SearchTreeView, k: int, log: Seq<usize>)
    requires
        t.links_wf(),
        forall|i: int| 0 <= i < log.len() ==> (#[trigger] log[i]) < t.len(),
    ensures
        t.passes(0, log) == log.len(),
        t.passes(k, log) <= log.len(),
    decreases log.len(),
{
    if log.len() > 0 {
        lemma_passes_root(t, k, log.drop_last());
        assert(log[log.len() - 1] < t.len());
        lemma_root_on_path(t, log.last() as int);
    }
}

/// If `k` is on the walk from `node`, so is the parent of `k`.
pub proof fn lemma_on_path_step(t: SearchTreeView, k: int, node: int)
    requires
        0 <= node,
        t.on_path(k, node),
        k > 0,
        t.nodes[k].parent is Some,
        t.nodes[k].parent->0 < k,
    ensures
        t.on_path(t.nodes[k].parent->0 as int, node),
    decreases node,
{
    if k != node {
        lemma_on_path_step(t, k, t.nodes[node].parent->0 as int);
    } else {
        assert(t.on_path(t.nodes[k].parent->0 as int, t.nodes[k].parent->0 as int));
    }
}

/// Two trees with the same links, of which the second is consistent in its
/// nodes, are consistent in their links together.
proof fn lemma_same_links_wf(t: SearchTreeView, u: SearchTreeView)
    requires
        t.links_wf(),
        u.nodes.len() == t.nodes.len(),
        forall|j: int|
            0 <= j < t.len() ==> (#[trigger] u.nodes[j]).parent == t.nodes[j].parent
                && u.nodes[j].children == t.nodes[j].children,
    ensures
        u.links_wf(),
{
    assert forall|c: int| 1 <= c < u.nodes.len() implies #[trigger] u.linked_up(c) by {
        assert(t.linked_up(c));
        assert(u.nodes[c].parent == t.nodes[c].parent);
        let p = t.nodes[c].parent->0 as int;
        assert(u.nodes[p].children == t.nodes[p].children);
    }
    assert forall|p: int, k: int|
        0 <= p < u.nodes.len() && 0 <= k < u.nodes[p].children.len() implies #[trigger] u.linked_down(
        p,
        k,
    ) by {
        assert(u.nodes[p].children == t.nodes[p].children);
        assert(t.linked_down(p, k));
        let c = t.nodes[p].children[k] as int;
        assert(u.nodes[c].parent == t.nodes[c].parent);
    }
}

/// Counting a rollout at one node keeps the node consistent.
proof fn lemma_record_wf(n: TreeNodeView, result: (u16, u16))
    requires
        n.wf(),
        result.0 <= 1,
        n.visits < 0xFFFF_FFFF,
    ensures
        n.record(result).wf(),
        n.record(result).visits == n.visits + 1,
{
    assert(n.turns + result.1 <= (n.visits + 1) * 0xFFFF) by (nonlinear_arith)
        requires
            n.turns <= n.visits * 0xFFFF,
            result.1 <= 0xFFFF,
    ;
    assert(n.visits * 0xFFFF <= 0xFFFF_FFFF * 0xFFFF) by (nonlinear_arith)
        requires
            n.visits < 0xFFFF_FFFF,
    ;
}

/// Where visits count rollouts, the root has as many visits as rollouts were
/// counted: after N rollouts on a tree that started without visits, the
/// root has N visits.
pub proof fn lemma_root_counts_rollouts(t: SearchTreeView)
    requires
        t.links_wf(),
        t.counted(),
    ensures
        t.nodes[0].visits == t.rollouts.len(),
{
    lemma_passes_root(t, 0, t.rollouts);
    assert(t.visits_counted(0));
}

/// Backpropagation conserves rollouts. In a tree in which every node has as
/// many visits as counted rollouts pass through it, the root has as many
/// visits as rollouts were counted; and counting one more rollout from `node`
/// keeps it so: it adds one visit to `node` and to each of its ancestors and
/// none elsewhere. The root's counter must have room for one more visit.
pub proof fn lemma_backpropagation_conserves(t: SearchTreeView, node: int, result: (u16, u16))
    requires
        t.links_wf(),
        t.counted(),
        0 <= node < t.len(),
        t.nodes[0].visits < u64::MAX,
    ensures
        t.nodes[0].visits == t.rollouts.len(),
        t.backpropagated(node, result).counted(),
        t.backpropagated(node, result).nodes[0].visits == t.rollouts.len() + 1,
        forall|k: int|
            0 <= k < t.len() ==> (#[trigger] t.backpropagated(node, result).nodes[k]).visits
                == t.nodes[k].visits + if t.on_path(k, node) {
                1int
            } else {
                0int
            },
{
    let u = t.backpropagated(node, result);
    let log = t.rollouts;
    lemma_passes_root(t, 0, log);
    assert(t.visits_counted(0));
    lemma_root_on_path(t, node);
    assert forall|j: int| 0 <= j < t.len() implies (#[trigger] t.nodes[j]).parent
        == u.nodes[j].parent by {}
    assert(u.rollouts.drop_last() =~= log);
    assert forall|k: int| 0 <= k < t.len() implies {
        &&& #[trigger] u.visits_counted(k)
        &&& u.nodes[k].visits == t.nodes[k].visits + if t.on_path(k, node) {
            1int
        } else {
            0int
        }
    } by {
        lemma_passes_root(t, k, log);
        assert(t.visits_counted(k));
        lemma_passes_same_links(t, u, k, log);
        lemma_on_path_same_links(t, u, k, node);
    }
    assert forall|k: int| 0 <= k < t.len() implies (#[trigger] u.nodes[k]).visits
        == t.nodes[k].visits + if t.on_path(k, node) {
        1int
    } else {
        0int
    } by {
        assert(u.visits_counted(k));
    }
    assert(u.visits_counted(0));
}

/// Counting a rollout keeps a consistent tree consistent, as long as the
/// counters have room.
pub proof fn lemma_backpropagated_wf(t: SearchTreeView, node: int, result: (u16, u16))
    requires
        t.wf(),
        0 <= node < t.len(),
        result.0 <= 1,
        t.nodes[0].visits < 0xFFFF_FFFF,
    ensures
        t.counted(),
        t.backpropagated(node, result).wf(),
{
    let u = t.backpropagated(node, result);
    assert forall|k: int| 0 <= k < t.len() implies #[trigger] t.visits_counted(k) by {
        assert(t.node_wf(k));
    }
    lemma_backpropagation_conserves(t, node, result);
    assert forall|j: int| 0 <= j < t.len() implies (#[trigger] u.nodes[j]).parent
        == t.nodes[j].parent && u.nodes[j].children == t.nodes[j].children by {}
    lemma_same_links_wf(t, u);
    assert(t.node_wf(0));
    assert forall|k: int| 0 <= k < u.len() implies #[trigger] u.node_wf(k) by {
        lemma_passes_root(t, k, t.rollouts);
        assert(t.node_wf(k));
        assert(u.visits_counted(k));
        lemma_record_wf(t.nodes[k], result);
    }
}

/// Every action in the pool of a node of a consistent tree is accepted by
/// the node's board.
pub proof fn lemma_pool_accepted(t: SearchTreeView, g: GeometryView, node: int)
    requires
        t.wf(),
        0 <= node < t.len(),
    ensures
        forall|k: int|
            0 <= k < t.nodes[node].pool(g).len() ==> (#[trigger] t.nodes[node].pool(g)[k]).accepted_on(
                t.nodes[node].state.board.size(),
            ),
{
    assert(t.node_wf(node));
    assert forall|k: int| 0 <= k < t.nodes[node].pool(g).len() implies (
    #[trigger] t.nodes[node].pool(g)[k]).accepted_on(t.nodes[node].state.board.size()) by {
        if t.nodes[node].untried_actions is None {
            crate::state::lemma_possible_actions_accepted(t.nodes[node].state, g, k);
        }
    }
}

/// Expansion conserves rollouts: growing a consistent tree by one node keeps
/// it consistent, and the new node has no visits.
pub proof fn lemma_growth_conserves(t: SearchTreeView, g: GeometryView, node: int, i: int)
    requires
        t.wf(),
        0 <= node < t.len(),
        t.len() < usize::MAX,
        0 <= i < t.nodes[node].pool(g).len(),
    ensures
        t.grown(g, node, i).wf(),
        t.grown(g, node, i).nodes[t.len() as int].visits == 0,
{
    let u = t.grown(g, node, i);
    let n = t.len() as int;
    let log = t.rollouts;
    let pool = t.nodes[node].pool(g);
    let rest = pool.remove(i);
    lemma_pool_accepted(t, g, node);
    assert(t.node_wf(node));
    assert(t.node_wf(0));
    assert(pool[i].accepted_on(t.nodes[node].state.board.size()));
    assert forall|j: int| 0 <= j < rest.len() implies (#[trigger] rest[j]).accepted_on(
        t.nodes[node].state.board.size(),
    ) by {
        if j < i {
            assert(rest[j] == pool[j]);
        } else {
            assert(rest[j] == pool[j + 1]);
        }
    }
    assert(u.nodes[node].wf());
    assert(u.nodes[n].wf());
    assert forall|j: int| 0 <= j < t.len() implies (#[trigger] t.nodes[j]).parent
        == u.nodes[j].parent by {}
    assert forall|k: int| 0 <= k < u.nodes.len() implies #[trigger] u.node_wf(k) by {
        if k < n {
            assert(t.node_wf(k));
            lemma_passes_same_links(t, u, k, log);
        } else {
            lemma_passes_none(u, k, log);
        }
    }
    assert forall|c: int| 1 <= c < u.nodes.len() implies #[trigger] u.linked_up(c) by {
        if c < n {
            assert(t.linked_up(c));
            let p = t.nodes[c].parent->0 as int;
            let j = choose|j: int|
                0 <= j < t.nodes[p].children.len() && t.nodes[p].children[j] == c as usize;
            assert(u.nodes[p].children[j] == c as usize);
        } else {
            assert(u.nodes[node].children[t.nodes[node].children.len() as int] == c as usize);
        }
    }
    assert forall|p: int, k: int|
        0 <= p < u.nodes.len() && 0 <= k < u.nodes[p].children.len() implies #[trigger] u.linked_down(
        p,
        k,
    ) by {
        if p < n && k < t.nodes[p].children.len() {
            assert(t.linked_down(p, k));
            let c = t.nodes[p].children[k] as int;
            assert(u.nodes[c].parent == t.nodes[c].parent);
        } else if k > 0 {
            assert(t.linked_down(p, k - 1));
        }
    }
}

/// Finding a pool used up keeps a consistent tree consistent.
pub proof fn lemma_exhaustion_conserves(t: SearchTreeView, node: int)
    requires
        t.wf(),
        0 <= node < t.len(),
    ensures
        t.exhausted(node).wf(),
{
    let u = t.exhausted(node);
    assert forall|j: int| 0 <= j < t.len() implies (#[trigger] u.nodes[j]).parent
        == t.nodes[j].parent && u.nodes[j].children == t.nodes[j].children by {}
    lemma_same_links_wf(t, u);
    assert(t.node_wf(0));
    assert forall|k: int| 0 <= k < u.nodes.len() implies #[trigger] u.node_wf(k) by {
        assert(t.node_wf(k));
        lemma_passes_same_links(t, u, k, t.rollouts);
    }
}

/// Counting a rollout keeps a tree of the game a tree of the game.
pub proof fn lemma_backpropagated_legal(
    t: SearchTreeView,
    g: GeometryView,
    node: int,
    result: (u16, u16),
)
    requires
        t.links_wf(),
        t.legal(g),
    ensures
        t.backpropagated(node, result).legal(g),
{
    let u = t.backpropagated(node, result);
    assert forall|k: int| 0 <= k < u.nodes.len() implies #[trigger] u.nodes[k].pool_legal(g) by {
        assert(t.nodes[k].pool_legal(g));
    }
    assert forall|c: int| 1 <= c < u.nodes.len() implies #[trigger] u.reached_by_play(g, c) by {
        assert(t.reached_by_play(g, c));
        assert(t.linked_up(c));
        let p = t.nodes[c].parent->0 as int;
        let a = choose|a: Action|
            t.nodes[p].state.possible_actions(g).contains(a) && t.nodes[c].state
                == #[trigger] t.nodes[p].state.play(a);
        assert(u.nodes[c].state == u.nodes[p].state.play(a));
    }
}

/// Finding a pool used up keeps a tree of the game a tree of the game.
pub proof fn lemma_exhausted_legal(t: SearchTreeView, g: GeometryView, node: int)
    requires
        t.links_wf(),
        0 <= node < t.len(),
        t.legal(g),
    ensures
        t.exhausted(node).legal(g),
{
    let u = t.exhausted(node);
    assert forall|k: int| 0 <= k < u.nodes.len() implies #[trigger] u.nodes[k].pool_legal(g) by {
        assert(t.nodes[k].pool_legal(g));
    }
    assert forall|c: int| 1 <= c < u.nodes.len() implies #[trigger] u.reached_by_play(g, c) by {
        assert(t.reached_by_play(g, c));
        assert(t.linked_up(c));
        let p = t.nodes[c].parent->0 as int;
        let a = choose|a: Action|
            t.nodes[p].state.possible_actions(g).contains(a) && t.nodes[c].state
                == #[trigger] t.nodes[p].state.play(a);
        assert(u.nodes[c].state == u.nodes[p].state.play(a));
    }
}

/// Expansion keeps a tree of the game a tree of the game.
pub proof fn lemma_grown_legal(t: SearchTreeView, g: GeometryView, node: int, i: int)
    requires
        t.links_wf(),
        0 <= node < t.len(),
        t.len() < usize::MAX,
        0 <= i < t.nodes[node].pool(g).len(),
        t.legal(g),
    ensures
        t.grown(g, node, i).legal(g),
{
    let u = t.grown(g, node, i);
    let n = t.len() as int;
    let pool = t.nodes[node].pool(g);
    let open = t.nodes[node].state.possible_actions(g);
    assert(t.nodes[node].pool_legal(g));
    assert forall|j: int| 0 <= j < pool.len() implies open.contains(#[trigger] pool[j]) by {}
    assert forall|k: int| 0 <= k < u.nodes.len() implies #[trigger] u.nodes[k].pool_legal(g) by {
        if k < n && k != node {
            assert(t.nodes[k].pool_legal(g));
        } else if k == node {
            let rest = pool.remove(i);
            assert forall|j: int| 0 <= j < rest.len() implies open.contains(#[trigger] rest[j]) by {
                if j < i {
                    assert(rest[j] == pool[j]);
                } else {
                    assert(rest[j] == pool[j + 1]);
                }
            }
        }
    }
    assert forall|c: int| 1 <= c < u.nodes.len() implies #[trigger] u.reached_by_play(g, c) by {
        if c < n {
            assert(t.reached_by_play(g, c));
            assert(t.linked_up(c));
            let p = t.nodes[c].parent->0 as int;
            let a = choose|a: Action|
                t.nodes[p].state.possible_actions(g).contains(a) && t.nodes[c].state
                    == #[trigger] t.nodes[p].state.play(a);
            assert(u.nodes[c].state == u.nodes[p].state.play(a));
        } else {
            assert(open.contains(pool[i]));
            assert(u.nodes[c].state == u.nodes[node].state.play(pool[i]));
        }
    }
}

/// In a tree of the game, the action that leads to the robust child of the
/// root is open in the state of the root.
pub proof fn lemma_best_action_legal(t: SearchTreeView, g: GeometryView)
    requires
        t.wf(),
        t.legal(g),
    ensures
        t.best_action() matches Some(a) ==> t.nodes[0].state.possible_actions(g).contains(a),
        t.best_action() is None <==> t.nodes[0].children.len() == 0,
{
    lemma_most_visited(t.child_counters(0));
    if most_visited(t.child_counters(0)) is Some {
        let k = most_visited(t.child_counters(0))->0;
        assert(t.linked_down(0, k));
        let c = t.nodes[0].children[k] as int;
        assert(t.reached_by_play(g, c));
    }
}

/// The number of rollouts in `log` that started from node `k`.
pub open spec fn starts_at(log: Seq<usize>, k: int) -> nat
    decreases log.len(),
{
    if log.len() == 0 {
        0
    } else {
        starts_at(log.drop_last(), k) + if log.last() == k {
            1nat
        } else {
            0nat
        }
    }
}

/// The ancestors of a node form a chain: of two nodes on the walk from `x`,
/// the earlier is on the walk from the later.
pub proof fn lemma_on_path_chain(t: SearchTreeView, a: int, b: int, x: int)
    requires
        0 <= x,
        t.on_path(a, x),
        t.on_path(b, x),
        a <= b,
    ensures
        t.on_path(a, b),
    decreases x,
{
    if b != x {
        let p = t.nodes[x].parent->0 as int;
        if a == x {
            lemma_on_path_before(t, b, p);
        } else {
            lemma_on_path_chain(t, a, b, p);
        }
    }
}

/// Children are listed in the order of their places.
pub proof fn lemma_children_ordered(t: SearchTreeView, k: int, i: int, j: int)
    requires
        t.links_wf(),
        0 <= k < t.len(),
        0 <= i < j < t.nodes[k].children.len(),
    ensures
        t.nodes[k].children[i] < t.nodes[k].children[j],
    decreases j - i,
{
    assert(t.linked_down(k, j));
    if i < j - 1 {
        lemma_children_ordered(t, k, i, j - 1);
    }
}

/// A walk that passes through `k` without starting there passes through a
/// child of `k`.
pub proof fn lemma_child_on_path(t: SearchTreeView, k: int, x: int) -> (j: int)
    requires
        t.links_wf(),
        0 <= k,
        0 <= x < t.len(),
        t.on_path(k, x),
        x != k,
    ensures
        0 <= j < t.nodes[k].children.len(),
        t.on_path(t.nodes[k].children[j] as int, x),
    decreases x,
{
    let p = t.nodes[x].parent->0 as int;
    assert(t.linked_up(x));
    if p == k {
        let j = choose|j: int|
            0 <= j < t.nodes[k].children.len() && t.nodes[k].children[j] == x as usize;
        j
    } else {
        lemma_child_on_path(t, k, p)
    }
}

/// A walk passes through at most one child of a node.
pub proof fn lemma_child_unique(t: SearchTreeView, k: int, i: int, j: int, x: int)
    requires
        t.links_wf(),
        0 <= k < t.len(),
        0 <= x,
        0 <= i < t.nodes[k].children.len(),
        0 <= j < t.nodes[k].children.len(),
        t.on_path(t.nodes[k].children[i] as int, x),
        t.on_path(t.nodes[k].children[j] as int, x),
    ensures
        i == j,
{
    let a = t.nodes[k].children[i] as int;
    let b = t.nodes[k].children[j] as int;
    assert(t.linked_down(k, i));
    assert(t.linked_down(k, j));
    if a < b {
        lemma_on_path_chain(t, a, b, x);
        lemma_on_path_before(t, a, k);
    } else if b < a {
        lemma_on_path_chain(t, b, a, x);
        lemma_on_path_before(t, b, k);
    } else if i < j {
        lemma_children_ordered(t, k, i, j);
    } else if j < i {
        lemma_children_ordered(t, k, j, i);
    }
}

/// If a walk passes through none of the first `count` children of `k`, none
/// of them is counted on it.
proof fn lemma_no_child_on_path(t: SearchTreeView, k: int, count: nat, x: int)
    requires
        forall|j: int| 0 <= j < count ==> !t.on_path(#[trigger] t.nodes[k].children[j] as int, x),
    ensures
        t.children_on_path(k, count, x) == 0,
    decreases count,
{
    if count > 0 {
        lemma_no_child_on_path(t, k, (count - 1) as nat, x);
        assert(!t.on_path(t.nodes[k].children[count - 1] as int, x));
    }
}

/// If a walk passes through child `only` of `k` and through no other child,
/// exactly that child is counted on it.
proof fn lemma_one_child_on_path(t: SearchTreeView, k: int, count: nat, x: int, only: int)
    requires
        0 <= only,
        t.on_path(t.nodes[k].children[only] as int, x),
        forall|j: int|
            0 <= j < count && j != only ==> !t.on_path(#[trigger] t.nodes[k].children[j] as int, x),
    ensures
        t.children_on_path(k, count, x) == if only < count {
            1nat
        } else {
            0nat
        },
    decreases count,
{
    if count > 0 {
        lemma_one_child_on_path(t, k, (count - 1) as nat, x, only);
        if count - 1 != only {
            assert(!t.on_path(t.nodes[k].children[count - 1] as int, x));
        }
    }
}

/// One more rollout in the log adds, below `k`, the children of `k` that its
/// walk passes through.
proof fn lemma_passes_below_step(t: SearchTreeView, k: int, count: nat, log: Seq<usize>)
    requires
        log.len() > 0,
    ensures
        t.passes_below(k, count, log) == t.passes_below(k, count, log.drop_last())
            + t.children_on_path(k, count, log.last() as int),
    decreases count,
{
    if count > 0 {
        lemma_passes_below_step(t, k, (count - 1) as nat, log);
    }
}

/// No rollout passes below `k` while none is counted.
proof fn lemma_passes_below_empty(t: SearchTreeView, k: int, count: nat)
    ensures
        t.passes_below(k, count, Seq::<usize>::empty()) == 0,
    decreases count,
{
    if count > 0 {
        lemma_passes_below_empty(t, k, (count - 1) as nat);
    }
}

/// The rollouts that pass through `k` are those that started from `k` and
/// those that pass through one of its children.
pub proof fn lemma_passes_split(t: SearchTreeView, k: int, log: Seq<usize>)
    requires
        t.links_wf(),
        0 <= k < t.len(),
        forall|i: int| 0 <= i < log.len() ==> (#[trigger] log[i]) < t.len(),
    ensures
        t.passes(k, log) == starts_at(log, k) + t.passes_below(
            k,
            t.nodes[k].children.len(),
            log,
        ),
    decreases log.len(),
{
    let n = t.nodes[k].children.len();
    if log.len() == 0 {
        assert(log =~= Seq::<usize>::empty());
        lemma_passes_below_empty(t, k, n);
    } else {
        let x = log.last() as int;
        let earlier = log.drop_last();
        assert(log[log.len() - 1] < t.len());
        assert forall|i: int| 0 <= i < earlier.len() implies (#[trigger] earlier[i]) < t.len() by {
            assert(earlier[i] == log[i]);
        }
        lemma_passes_split(t, k, earlier);
        lemma_passes_below_step(t, k, n, log);
        if t.on_path(k, x) && x != k {
            let only = lemma_child_on_path(t, k, x);
            assert forall|j: int| 0 <= j < n && j != only implies !t.on_path(
                #[trigger] t.nodes[k].children[j] as int,
                x,
            ) by {
                if t.on_path(t.nodes[k].children[j] as int, x) {
                    lemma_child_unique(t, k, j, only, x);
                }
            }
            lemma_one_child_on_path(t, k, n, x, only);
        } else {
            assert forall|j: int| 0 <= j < n implies !t.on_path(
                #[trigger] t.nodes[k].children[j] as int,
                x,
            ) by {
                let c = t.nodes[k].children[j] as int;
                assert(t.linked_down(k, j));
                if t.on_path(c, x) {
                    if x == k {
                        lemma_on_path_before(t, c, k);
                    } else {
                        lemma_on_path_step(t, c, x);
                    }
                }
            }
            lemma_no_child_on_path(t, k, n, x);
        }
    }
}

/// Where visits count rollouts, the visits of the children of `k` count the
/// rollouts that pass below `k`.
proof fn lemma_children_visits_counted(t: SearchTreeView, k: int, count: nat)
    requires
        t.links_wf(),
        t.counted(),
        0 <= k < t.len(),
        count <= t.nodes[k].children.len(),
    ensures
        t.children_visits(k, count) == t.passes_below(k, count, t.rollouts),
    decreases count,
{
    if count > 0 {
        lemma_children_visits_counted(t, k, (count - 1) as nat);
        assert(t.linked_down(k, count - 1));
        assert(t.visits_counted(t.nodes[k].children[count - 1] as int));
    }
}

/// Conservation between a node and its children: where visits count
/// rollouts, a node has as many visits as rollouts started from it and its
/// children have visits together; so it has at least as many visits as its
/// children together.
pub proof fn lemma_visits_cover_children(t: SearchTreeView, k: int)
    requires
        t.links_wf(),
        t.counted(),
        0 <= k < t.len(),
    ensures
        t.nodes[k].visits == starts_at(t.rollouts, k) + t.children_visits(
            k,
            t.nodes[k].children.len(),
        ),
        t.nodes[k].visits >= t.children_visits(k, t.nodes[k].children.len()),
{
    assert(t.visits_counted(k));
    lemma_passes_split(t, k, t.rollouts);
    lemma_children_visits_counted(t, k, t.nodes[k].children.len());
}

/// The search tree.
pub struct SearchTree {
    nodes: Vec<TreeNode>,
    rollouts: Ghost<Seq<usize>>,
}

/// The views of a row of nodes.
pub open spec fn node_views(nodes: Seq<TreeNode>) -> Seq<TreeNodeView> {
    Seq::new(nodes.len(), |k: int| nodes[k]@)
}

impl View for SearchTree {
    type V = SearchTreeView;

    closed spec fn view(&self) -> SearchTreeView {
        SearchTreeView { nodes: node_views(self.nodes@), rollouts: self.rollouts@ }
    }
}

impl SearchTree {
    /// The tree is consistent: every node is, and so is the view; see
    /// [`SearchTreeView::wf`].
    pub closed spec fn wf(&self) -> bool {
        &&& self@.wf()
        &&& forall|k: int| 0 <= k < self.nodes@.len() ==> #[trigger] self.nodes@[k].wf()
    }

    /// A consistent tree has a well-formed view.
    pub proof fn lemma_wf_view(&self)
        requires
            self.wf(),
        ensures
            self@.wf(),
            self@.counted(),
            self@.len() >= 1,
            self@.nodes[0].visits == self@.rollouts.len(),
    {
        lemma_passes_root(self@, 0, self@.rollouts);
        assert(self@.node_wf(0));
        assert forall|k: int| 0 <= k < self@.len() implies #[trigger] self@.visits_counted(k) by {
            assert(self@.node_wf(k));
        }
    }

    /// The tree that consists of a root for `state`.
    pub fn new(state: State, exploration_constant: u32) -> (tree: SearchTree)
        requires
            state.wf(),
        ensures
            tree.wf(),
            tree@ == (SearchTreeView {
                nodes: seq![TreeNodeView::fresh(state@, exploration_constant)],
                rollouts: Seq::empty(),
            }),
    {
        let root = TreeNode::new(state, exploration_constant);
        let mut nodes: Vec<TreeNode> = Vec::new();
        nodes.push(root);
        let tree = SearchTree { nodes, rollouts: Ghost(Seq::empty()) };
        proof {
            tree.nodes@[0].lemma_wf_view();
            assert(tree@.nodes =~= seq![TreeNodeView::fresh(state@, exploration_constant)]);
            assert(tree@.passes(0, tree@.rollouts) == 0);
        }
        tree
    }

    /// The number of nodes.
    pub fn len(&self) -> (n: usize)
        ensures
            n == self@.len(),
    {
        self.nodes.len()
    }

    /// The node at place `place`.
    pub fn node(&self, place: usize) -> (node: &TreeNode)
        requires
            place < self@.len(),
        ensures
            node@ == self@.nodes[place as int],
            self.wf() ==> node.wf() && self@.node_wf(place as int),
    {
        proof {
            if self.wf() {
                assert(self.nodes@[place as int].wf());
                assert(self@.node_wf(place as int));
            }
        }
        &self.nodes[place]
    }

    /// Selects among the children of `node`: each visited child is scored by
    /// `scorer`, and the child with the first largest priority is returned.
    /// A child without visits is never scored and never selected.
    pub fn select_child<S: UctScorer>(&self, node: usize, scorer: &S) -> (child: Option<usize>)
        requires
            self.wf(),
            node < self@.len(),
        ensures
            child == self@.selected(node as int, self@.scored(node as int, *scorer)),
            child matches Some(c) ==> node < c < self@.len() && self@.nodes[c as int].parent == Some(
                node,
            ) && self@.nodes[c as int].visits >= 1,
    {
        let parent = &self.nodes[node];
        let children = parent.children();
        let ghost wanted = self@.scored(node as int, *scorer);
        let mut priorities: Vec<Option<u64>> = Vec::new();
        let mut k: usize = 0;
        while k < children.len()
            invariant
                k <= children@.len(),
                self.wf(),
                node < self@.len(),
                parent@ == self@.nodes[node as int],
                children@ == self@.nodes[node as int].children,
                wanted == self@.scored(node as int, *scorer),
                priorities@.len() == k,
                forall|j: int| 0 <= j < k ==> (#[trigger] priorities@[j]) == wanted[j],
            decreases children.len() - k,
        {
            proof {
                self.lemma_wf_view();
                assert(self@.linked_down(node as int, k as int));
            }
            let child = &self.nodes[children[k]];
            if child.visits() == 0 {
                priorities.push(None);
            } else {
                priorities.push(
                    scorer.score(
                        child.wins(),
                        child.visits(),
                        parent.visits(),
                        parent.exploration_constant(),
                    ),
                );
            }
            k += 1;
        }
        assert(priorities@ =~= wanted);
        let child = parent.select_child(&priorities);
        proof {
            crate::node::lemma_first_best(priorities@);
            if first_best(priorities@) is Some {
                assert(self@.linked_down(node as int, first_best(priorities@)->0));
            }
        }
        child
    }

    /// Expands `node` once: one action is drawn at random from its pool and
    /// taken out, and the child it leads to is put at the end of the tree.
    /// Returns the place of the child, or `None` exactly when the pool is
    /// used up. A tree of the game stays a tree of the game.
    pub fn expand(&mut self, node: usize, geometry: &Geometry, rng: &mut RandomSource) -> (child:
        Option<usize>)
        requires
            old(self).wf(),
            node < old(self)@.len(),
            old(self)@.len() < usize::MAX,
            geometry@.wf(),
            old(self)@.nodes[0].state.board.size() == geometry@.size(),
        ensures
            final(self).wf(),
            match child {
                Some(c) => {
                    &&& c == old(self)@.len()
                    &&& exists|i: int|
                        0 <= i < old(self)@.nodes[node as int].pool(geometry@).len()
                            && final(self)@ == #[trigger] old(self)@.grown(geometry@, node as int, i)
                },
                None => {
                    &&& old(self)@.nodes[node as int].pool(geometry@).len() == 0
                    &&& final(self)@ == old(self)@.exhausted(node as int)
                },
            },
            old(self)@.legal(geometry@) ==> final(self)@.legal(geometry@),
    {
        let ghost before = self@;
        let place: usize = self.nodes.len();
        proof {
            assert(before.node_wf(node as int));
            assert(before.node_wf(0));
            assert(self.nodes@[node as int].wf());
        }
        let made = self.nodes[node].expand(geometry, rng);
        match made {
            None => {
                proof {
                    let after = before.exhausted(node as int);
                    assert(self@.nodes =~= after.nodes);
                    assert(self@ =~= after);
                    lemma_exhaustion_conserves(before, node as int);
                    if before.legal(geometry@) {
                        lemma_exhausted_legal(before, geometry@, node as int);
                    }
                    assert forall|k: int| 0 <= k < self.nodes@.len() implies #[trigger] self.nodes@[k].wf() by {
                        if k != node {
                            assert(old(self).nodes@[k].wf());
                        }
                    }
                }
                None
            },
            Some(fresh) => {
                let ghost i = choose|i: int|
                    0 <= i < before.nodes[node as int].pool(geometry@).len()
                        && #[trigger] before.nodes[node as int].expanded(
                        geometry@,
                        i,
                        self@.nodes[node as int],
                        fresh@,
                    );
                let mut child = fresh;
                child.set_parent(node);
                self.nodes[node].add_child(place);
                self.nodes.push(child);
                proof {
                    let after = before.grown(geometry@, node as int, i);
                    assert(self@.nodes =~= after.nodes);
                    assert(self@ =~= after);
                    lemma_growth_conserves(before, geometry@, node as int, i);
                    if before.legal(geometry@) {
                        lemma_grown_legal(before, geometry@, node as int, i);
                    }
                    assert forall|k: int| 0 <= k < self.nodes@.len() implies #[trigger] self.nodes@[k].wf() by {
                        if k != node && k < place {
                            assert(old(self).nodes@[k].wf());
                        }
                    }
                }
                Some(place)
            },
        }
    }

    /// Runs one rollout from the state of `node`; see
    /// [`TreeNode::simulate`]. The tree does not change.
    pub fn simulate(&self, node: usize, geometry: &Geometry, max_depth: u16, rng: &mut RandomSource) -> (result:
        (u16, u16))
        requires
            self.wf(),
            node < self@.len(),
            geometry@.wf(),
            self@.nodes[0].state.board.size() == geometry@.size(),
        ensures
            exists|picks: Seq<int>| #[trigger]
                self@.nodes[node as int].state.simulated(geometry@, picks, max_depth as int, result)
                    && self@.nodes[node as int].state.finished(geometry@, picks, max_depth as int),
            result.0 <= 1,
            result.1 <= max_depth,
    {
        proof {
            assert(self@.node_wf(node as int));
            assert(self@.node_wf(0));
            assert(self.nodes@[node as int].wf());
        }
        self.nodes[node].simulate(geometry, max_depth, rng)
    }

    /// Counts a rollout from `node` with the given result: walking from
    /// `node` up to the root, every node on the way gains one visit,
    /// `result.0` wins and `result.1` turns. No other node changes. A
    /// rollout is won once or not at all, and the visits of the root must
    /// leave room in the counters.
    pub fn backpropagate(&mut self, node: usize, result: (u16, u16))
        requires
            old(self).wf(),
            node < old(self)@.len(),
            result.0 <= 1,
            old(self)@.nodes[0].visits < 0xFFFF_FFFF,
        ensures
            final(self).wf(),
            final(self)@ == old(self)@.backpropagated(node as int, result),
    {
        let ghost before = self@;
        proof {
            lemma_backpropagated_wf(before, node as int, result);
            assert forall|k: int| 0 <= k < before.len() implies (#[trigger] before.nodes[k]).visits
                < 0xFFFF_FFFF by {
                lemma_passes_root(before, k, before.rollouts);
                assert(before.node_wf(k));
                assert(before.node_wf(0));
            }
        }
        let mut current: usize = node;
        let mut walking: bool = true;
        while walking
            invariant
                before == old(self)@,
                before.links_wf(),
                result.0 <= 1,
                forall|k: int| 0 <= k < before.len() ==> (#[trigger] before.nodes[k]).visits < 0xFFFF_FFFF,
                self.rollouts@ == before.rollouts,
                self.nodes@.len() == before.len(),
                current < before.len(),
                node < before.len(),
                before.on_path(current as int, node as int),
                forall|k: int| 0 <= k < self.nodes@.len() ==> #[trigger] self.nodes@[k].wf(),
                forall|k: int|
                    0 <= k < before.len() ==> #[trigger] self.nodes@[k]@ == if before.on_path(
                        k,
                        node as int,
                    ) && (!before.on_path(k, current as int) || !walking) {
                        before.nodes[k].record(result)
                    } else {
                        before.nodes[k]
                    },
                !walking ==> current == 0,
            decreases
                    current + if walking {
                        1int
                    } else {
                        0int
                    },
        {
            let ghost done = current as int;
            let ghost stale = self.nodes@;
            proof {
                assert(stale[done].wf());
                assert(stale[done]@ == before.nodes[done]);
                assert(before.nodes[done].visits < 0xFFFF_FFFF);
            }
            self.nodes[current].backpropagate(result);
            proof {
                assert forall|k: int| 0 <= k < self.nodes@.len() implies #[trigger] self.nodes@[k].wf() by {
                    if k != done {
                        assert(stale[k].wf());
                    }
                }
            }
            match self.nodes[current].parent() {
                Some(parent) => {
                    proof {
                        if current == 0 {
                            assert(before.nodes[0].parent is None);
                        }
                        assert(before.linked_up(done));
                        lemma_on_path_step(before, done, node as int);
                        if before.on_path(done, parent as int) {
                            lemma_on_path_before(before, done, parent as int);
                        }
                        assert forall|k: int| 0 <= k < before.len() implies #[trigger] self.nodes@[k]@
                            == if before.on_path(k, node as int) && !before.on_path(k, parent as int) {
                            before.nodes[k].record(result)
                        } else {
                            before.nodes[k]
                        } by {
                            assert(before.on_path(k, done) == (k == done || before.on_path(
                                k,
                                parent as int,
                            )));
                            if k != done {
                                assert(stale[k]@ == if before.on_path(k, node as int)
                                    && !before.on_path(k, done) {
                                    before.nodes[k].record(result)
                                } else {
                                    before.nodes[k]
                                });
                            }
                        }
                    }
                    current = parent;
                },
                None => {
                    proof {
                        if current > 0 {
                            assert(before.linked_up(done));
                        }
                        assert forall|k: int| 0 <= k < before.len() implies #[trigger] self.nodes@[k]@
                            == if before.on_path(k, node as int) {
                            before.nodes[k].record(result)
                        } else {
                            before.nodes[k]
                        } by {
                            assert(before.on_path(k, 0) == (k == 0));
                            if k != done {
                                assert(stale[k]@ == if before.on_path(k, node as int)
                                    && !before.on_path(k, done) {
                                    before.nodes[k].record(result)
                                } else {
                                    before.nodes[k]
                                });
                            }
                        }
                    }
                    walking = false;
                },
            }
        }
        self.rollouts = Ghost(before.rollouts.push(node));
        proof {
            let after = before.backpropagated(node as int, result);
            assert forall|k: int| 0 <= k < before.len() implies self@.nodes[k] == after.nodes[k] by {
                assert(self.nodes@[k]@ == after.nodes[k]);
            }
            assert(self@.nodes =~= after.nodes);
            assert(self@ =~= after);
        }
    }

    /// The robust child of the root: the first of its children with the most
    /// visits and, among those, the most wins; `None` exactly when the root
    /// has no child.
    pub fn best_child(&self) -> (best: Option<usize>)
        requires
            self.wf(),
        ensures
            best == self@.best_child(),
            best is None <==> self@.nodes[0].children.len() == 0,
    {
        let children = self.nodes[0].children();
        let ghost counters = self@.child_counters(0);
        let mut best: Option<usize> = None;
        let mut best_visits: u64 = 0;
        let mut best_wins: u64 = 0;
        let mut k: usize = 0;
        while k < children.len()
            invariant
                k <= children@.len(),
                self.wf(),
                children@ == self@.nodes[0].children,
                counters == self@.child_counters(0),
                match best {
                    Some(b) => b < k && most_visited(counters.take(k as int)) == Some(b as int)
                        && counters[b as int] == (best_visits, best_wins),
                    None => k == 0,
                },
            decreases children.len() - k,
        {
            assert(counters.take(k + 1).drop_last() =~= counters.take(k as int));
            proof {
                self.lemma_wf_view();
                assert(self@.linked_down(0, k as int));
            }
            let child = &self.nodes[children[k]];
            let better: bool = match best {
                None => true,
                Some(_) => child.visits() > best_visits || (child.visits() == best_visits
                    && child.wins() > best_wins),
            };
            if better {
                best = Some(k);
                best_visits = child.visits();
                best_wins = child.wins();
            }
            k += 1;
        }
        proof {
            assert(counters.take(counters.len() as int) =~= counters);
            lemma_most_visited(counters);
        }
        match best {
            Some(b) => Some(children[b]),
            None => {
                assert(counters.len() == 0);
                None
            },
        }
    }

    /// The action that leads to the robust child of the root; `None` exactly
    /// when the root has no child.
    pub fn best_action(&self) -> (action: Option<Action>)
        requires
            self.wf(),
        ensures
            action == self@.best_action(),
    {
        match self.best_child() {
            Some(c) => {
                proof {
                    self.lemma_wf_view();
                    lemma_most_visited(self@.child_counters(0));
                    assert(self@.linked_down(0, most_visited(self@.child_counters(0))->0));
                }
                *self.nodes[c].state().get_last_action()
            },
            None => None,
        }
    }
}

} // verus!
