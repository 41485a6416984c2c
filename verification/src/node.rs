//! One node of the search tree: a state snapshot, the pool of actions not yet
//! tried from it, and the counters that rollouts feed.

use crate::action::Action;
use crate::error::CombatError;
use crate::geometry::{Geometry, GeometryView};
use crate::random::RandomSource;
use crate::state::{lemma_possible_actions_accepted, Actor, State, StateView};
use vstd::prelude::*;

verus! {

/// How a rollout ended: whether the AI won, after how many actions, and in
/// which state.
pub struct RolloutView {
    pub win: int,
    pub depth: int,
    pub end: StateView,
}

impl StateView {
    /// The rollout that starts in this state after `depth` actions and takes
    /// its choices from `picks`.
    ///
    /// The rollout ends with the AI's win when the Player has lost, else with
    /// no win when the AI has lost, when `max_depth` actions have been
    /// applied, or when the next pick names no open action (in particular
    /// when none is open). Otherwise the picked action is played and the
    /// rollout goes on.
    pub open spec fn rollout(
        self,
        g: GeometryView,
        picks: Seq<int>,
        depth: int,
        max_depth: int,
    ) -> RolloutView
        decreases picks.len(),
    {
        let terminal = self.is_terminal();
        let actions = self.possible_actions(g);
        if terminal.0 {
            RolloutView { win: 1, depth, end: self }
        } else if terminal.1 || depth >= max_depth || picks.len() == 0 || !(0 <= picks[0]
            < actions.len()) {
            RolloutView { win: 0, depth, end: self }
        } else {
            self.play(actions[picks[0]]).rollout(g, picks.drop_first(), depth + 1, max_depth)
        }
    }

    /// `result` is the outcome of the rollout from this state that takes its
    /// choices from `picks`.
    pub open spec fn simulated(
        self,
        g: GeometryView,
        picks: Seq<int>,
        max_depth: int,
        result: (u16, u16),
    ) -> bool {
        let r = self.rollout(g, picks, 0, max_depth);
        r.win == result.0 && r.depth == result.1
    }

    /// The rollout from this state that takes its choices from `picks` ran
    /// to its end: it stopped in a decided game, at the depth limit, or
    /// where no action was open, and not for want of a pick.
    pub open spec fn finished(self, g: GeometryView, picks: Seq<int>, max_depth: int) -> bool {
        let r = self.rollout(g, picks, 0, max_depth);
        r.end.decided() || r.depth >= max_depth || r.end.possible_actions(g).len() == 0
    }
}

/// Terminal consistency: whatever the choices, a rollout reports the AI's win
/// exactly when, in the state it ended in, the health on the Player's cells
/// sums to zero or less; and it never runs past the depth limit.
pub proof fn lemma_rollout_consistent(
    s: StateView,
    g: GeometryView,
    picks: Seq<int>,
    depth: int,
    max_depth: int,
)
    requires
        0 <= depth <= max_depth,
    ensures
        s.rollout(g, picks, depth, max_depth).win == 1 <==> s.rollout(
            g,
            picks,
            depth,
            max_depth,
        ).end.board.defeated(Actor::Player),
        s.rollout(g, picks, depth, max_depth).win == 0 || s.rollout(g, picks, depth, max_depth).win
            == 1,
        depth <= s.rollout(g, picks, depth, max_depth).depth <= max_depth,
    decreases picks.len(),
{
    let terminal = s.is_terminal();
    let actions = s.possible_actions(g);
    if !terminal.0 && !(terminal.1 || depth >= max_depth || picks.len() == 0 || !(0 <= picks[0]
        < actions.len())) {
        lemma_rollout_consistent(
            s.play(actions[picks[0]]),
            g,
            picks.drop_first(),
            depth + 1,
            max_depth,
        );
    }
}

/// The mathematical content of a [`TreeNode`].
#[verifier::ext_equal]
pub struct TreeNodeView {
    /// The state snapshot.
    pub state: StateView,
    /// The place of the parent in the tree, `None` for the root.
    pub parent: Option<usize>,
    /// The places of the children in the tree, in order of creation.
    pub children: Seq<usize>,
    /// The number of rollouts through the node that the AI won.
    pub wins: u64,
    /// The number of rollouts through the node.
    pub visits: u64,
    /// The summed depth of the rollouts through the node.
    pub turns: u64,
    /// The actions not yet tried, `None` until they are first asked for.
    pub untried_actions: Option<Seq<Action>>,
    /// The exploration constant, in thousandths.
    pub exploration_constant: u32,
}

impl TreeNodeView {
    /// The node is consistent: its state is, every untried action is accepted
    /// by the board, no more rollouts were won than ran, and no rollout ran
    /// deeper than a `u16` can count.
    pub open spec fn wf(self) -> bool {
        &&& self.state.wf()
        &&& self.wins <= self.visits
        &&& self.turns <= self.visits * 0xFFFF
        &&& self.untried_actions matches Some(pool) ==> forall|k: int|
            0 <= k < pool.len() ==> (#[trigger] pool[k]).accepted_on(self.state.board.size())
    }

    /// A node without parent, children or rollouts, whose pool has not been
    /// asked for yet.
    pub open spec fn fresh(state: StateView, exploration_constant: u32) -> TreeNodeView {
        TreeNodeView {
            state,
            parent: None,
            children: Seq::empty(),
            wins: 0,
            visits: 0,
            turns: 0,
            untried_actions: None,
            exploration_constant,
        }
    }

    /// The actions not yet tried: the stored pool, or every open action if
    /// the pool has not been asked for yet.
    pub open spec fn pool(self, g: GeometryView) -> Seq<Action> {
        match self.untried_actions {
            Some(pool) => pool,
            None => self.state.possible_actions(g),
        }
    }

    /// Every action in the stored pool is open in the state of the node.
    pub open spec fn pool_legal(self, g: GeometryView) -> bool {
        self.untried_actions matches Some(pool) ==> forall|k: int|
            0 <= k < pool.len() ==> self.state.possible_actions(g).contains(#[trigger] pool[k])
    }

    /// No untried action remains: the stored pool is used up, or the pool
    /// has not been asked for yet and no action is open in the state.
    pub open spec fn fully_expanded(self, g: GeometryView) -> bool {
        self.pool(g).len() == 0
    }

    /// The node after one more rollout with the given result has gone
    /// through it.
    pub open spec fn record(self, result: (u16, u16)) -> TreeNodeView {
        TreeNodeView {
            wins: (self.wins + result.0) as u64,
            visits: (self.visits + 1) as u64,
            turns: (self.turns + result.1) as u64,
            ..self
        }
    }
}

/// The first place that holds the largest priority, if any place holds one.
pub open spec fn first_best(priorities: Seq<Option<u64>>) -> Option<int>
    decreases priorities.len(),
{
    if priorities.len() == 0 {
        None
    } else {
        let before = first_best(priorities.drop_last());
        match (priorities.last(), before) {
            (None, _) => before,
            (Some(_), None) => Some(priorities.len() - 1),
            (Some(p), Some(k)) => if p > priorities[k]->0 {
                Some(priorities.len() - 1)
            } else {
                before
            },
        }
    }
}

/// `first_best` names a place that holds a priority no other place exceeds
/// and no earlier place equals; it names none only if no place holds one.
pub proof fn lemma_first_best(priorities: Seq<Option<u64>>)
    ensures
        match first_best(priorities) {
            Some(k) => {
                &&& 0 <= k < priorities.len()
                &&& priorities[k] is Some
                &&& forall|j: int|
                    0 <= j < priorities.len() && (#[trigger] priorities[j]) is Some ==> priorities[j]->0
                        <= priorities[k]->0
                &&& forall|j: int|
                    0 <= j < k && (#[trigger] priorities[j]) is Some ==> priorities[j]->0
                        < priorities[k]->0
            },
            None => forall|j: int| 0 <= j < priorities.len() ==> (#[trigger] priorities[j]) is None,
        },
    decreases priorities.len(),
{
    if priorities.len() > 0 {
        let front = priorities.drop_last();
        lemma_first_best(front);
        assert forall|j: int| 0 <= j < front.len() implies front[j] == priorities[j] by {}
    }
}

/// The first place that holds the largest priority, if any place holds one.
pub fn select_best(priorities: &Vec<Option<u64>>) -> (best: Option<usize>)
    ensures
        match best {
            Some(k) => first_best(priorities@) == Some(k as int),
            None => first_best(priorities@) is None,
        },
{
    let mut best: Option<usize> = None;
    let mut best_priority: u64 = 0;
    let mut k: usize = 0;
    while k < priorities.len()
        invariant
            k <= priorities@.len(),
            match best {
                Some(b) => first_best(priorities@.take(k as int)) == Some(b as int) && b < k
                    && priorities@[b as int] == Some(best_priority),
                None => first_best(priorities@.take(k as int)) is None,
            },
        decreases priorities.len() - k,
    {
        assert(priorities@.take(k + 1).drop_last() =~= priorities@.take(k as int));
        match priorities[k] {
            None => {},
            Some(p) => {
                if best.is_none() || p > best_priority {
                    best = Some(k);
                    best_priority = p;
                }
            },
        }
        k += 1;
    }
    assert(priorities@.take(priorities@.len() as int) =~= priorities@);
    best
}

/// One node of the search tree.
pub struct TreeNode {
    state: State,
    parent: Option<usize>,
    children: Vec<usize>,
    wins: u64,
    visits: u64,
    turns: u64,
    untried_actions: Option<Vec<Action>>,
    exploration_constant: u32,
}

impl View for TreeNode {
    type V = TreeNodeView;

    closed spec fn view(&self) -> TreeNodeView {
        TreeNodeView {
            state: self.state@,
            parent: self.parent,
            children: self.children@,
            wins: self.wins,
            visits: self.visits,
            turns: self.turns,
            untried_actions: match self.untried_actions {
                Some(pool) => Some(pool@),
                None => None,
            },
            exploration_constant: self.exploration_constant,
        }
    }
}

impl TreeNode {
    /// The node is consistent; see [`TreeNodeView::wf`].
    pub closed spec fn wf(&self) -> bool {
        self.state.wf() && self@.wf()
    }

    /// A consistent node has a well-formed view.
    pub proof fn lemma_wf_view(&self)
        requires
            self.wf(),
        ensures
            self@.wf(),
    {
    }

    /// A node for `state` without parent, children or rollouts. The
    /// exploration constant is given in thousandths.
    pub fn new(state: State, exploration_constant: u32) -> (node: TreeNode)
        requires
            state.wf(),
        ensures
            node.wf(),
            node@ == TreeNodeView::fresh(state@, exploration_constant),
    {
        proof {
            state.lemma_wf_view();
        }
        TreeNode {
            state,
            parent: None,
            children: Vec::new(),
            wins: 0,
            visits: 0,
            turns: 0,
            untried_actions: None,
            exploration_constant,
        }
    }

    /// The state snapshot.
    pub fn state(&self) -> (state: &State)
        ensures
            state@ == self@.state,
            self.wf() ==> state.wf(),
    {
        &self.state
    }

    /// The place of the parent in the tree, `None` for the root.
    pub fn parent(&self) -> (parent: Option<usize>)
        ensures
            parent == self@.parent,
    {
        self.parent
    }

    /// The places of the children in the tree.
    pub fn children(&self) -> (children: &Vec<usize>)
        ensures
            children@ == self@.children,
    {
        &self.children
    }

    /// The number of rollouts through the node that the AI won.
    pub fn wins(&self) -> (wins: u64)
        ensures
            wins == self@.wins,
    {
        self.wins
    }

    /// The number of rollouts through the node.
    pub fn visits(&self) -> (visits: u64)
        ensures
            visits == self@.visits,
    {
        self.visits
    }

    /// The summed depth of the rollouts through the node.
    pub fn turns(&self) -> (turns: u64)
        ensures
            turns == self@.turns,
    {
        self.turns
    }

    /// The exploration constant, in thousandths.
    pub fn exploration_constant(&self) -> (c: u32)
        ensures
            c == self@.exploration_constant,
    {
        self.exploration_constant
    }

    /// The number of actions in the pool, `None` until the pool has been
    /// asked for.
    pub fn untried_count(&self) -> (count: Option<usize>)
        ensures
            match count {
                Some(n) => self@.untried_actions matches Some(pool) && pool.len() == n,
                None => self@.untried_actions is None,
            },
    {
        match &self.untried_actions {
            Some(pool) => Some(pool.len()),
            None => None,
        }
    }

    /// Whether no untried action remains, so that expanding the node would
    /// make no child: the stored pool is used up, or the pool has not been
    /// asked for yet and no action is open in the state.
    pub fn is_fully_expanded(&self, geometry: &Geometry) -> (full: bool)
        requires
            self.wf(),
            geometry@.wf(),
            self@.state.board.size() == geometry@.size(),
        ensures
            full == self@.fully_expanded(geometry@),
    {
        match &self.untried_actions {
            Some(pool) => pool.len() == 0,
            None => self.state.get_possible_actions(geometry).len() == 0,
        }
    }

    /// Whether the AI has won, and whether the Player has won, in the state
    /// of the node.
    pub fn is_terminal(&self) -> (terminal: (bool, bool))
        requires
            self.wf(),
        ensures
            terminal == self@.state.is_terminal(),
    {
        self.state.is_terminal()
    }

    /// The child that holds the first largest priority, where place `k` of
    /// `priorities` belongs to child `k`; `None` if no child holds one.
    pub fn select_child(&self, priorities: &Vec<Option<u64>>) -> (child: Option<usize>)
        requires
            priorities@.len() == self@.children.len(),
        ensures
            child == match first_best(priorities@) {
                Some(k) => Some(self@.children[k]),
                None => None,
            },
    {
        proof {
            lemma_first_best(priorities@);
        }
        match select_best(priorities) {
            Some(k) => Some(self.children[k]),
            None => None,
        }
    }

    /// Asks for the pool: if it has not been asked for yet, it becomes the
    /// list of actions open in the state of the node.
    pub fn populate(&mut self, geometry: &Geometry)
        requires
            old(self).wf(),
            geometry@.wf(),
            old(self)@.state.board.size() == geometry@.size(),
        ensures
            final(self).wf(),
            final(self)@ == (TreeNodeView {
                untried_actions: Some(old(self)@.pool(geometry@)),
                ..old(self)@
            }),
    {
        if self.untried_actions.is_none() {
            let actions = self.state.get_possible_actions(geometry);
            proof {
                self.state.lemma_wf_view();
                assert forall|k: int| 0 <= k < actions@.len() implies (#[trigger] actions@[k]).accepted_on(
                    self@.state.board.size(),
                ) by {
                    lemma_possible_actions_accepted(self@.state, geometry@, k);
                }
            }
            self.untried_actions = Some(actions);
        }
    }

    /// Takes action `action_index` out of the pool and makes the child it
    /// leads to: a fresh node whose state is a copy of this node's state with
    /// the action played. The child is not yet part of any tree.
    pub fn expand_at(&mut self, action_index: usize) -> (child: TreeNode)
        requires
            old(self).wf(),
            old(self)@.untried_actions is Some,
            action_index < old(self)@.untried_actions->0.len(),
        ensures
            final(self).wf(),
            final(self)@ == (TreeNodeView {
                untried_actions: Some(old(self)@.untried_actions->0.remove(action_index as int)),
                ..old(self)@
            }),
            child.wf(),
            child@ == TreeNodeView::fresh(
                old(self)@.state.play(old(self)@.untried_actions->0[action_index as int]),
                old(self)@.exploration_constant,
            ),
    {
        let ghost pool = old(self)@.untried_actions->0;
        let mut actions: Vec<Action> = match self.untried_actions.take() {
            Some(actions) => actions,
            None => Vec::new(),
        };
        let action: Action = actions.remove(action_index);
        self.untried_actions = Some(actions);
        assert(action.accepted_on(self@.state.board.size())) by {
            assert(pool[action_index as int].accepted_on(self@.state.board.size()));
        }

        let mut next_state: State = self.state.duplicate();
        let played: Result<(), CombatError> = next_state.play(action);
        assert(played is Ok);
        proof {
            next_state.lemma_wf_view();
        }
        TreeNode::new(next_state, self.exploration_constant)
    }

    /// Expands the node once: asks for the pool, draws one of its actions at
    /// random, takes it out and makes the child it leads to. Returns `None`,
    /// and makes no child, exactly when the pool is used up.
    pub fn expand(&mut self, geometry: &Geometry, rng: &mut RandomSource) -> (child: Option<TreeNode>)
        requires
            old(self).wf(),
            geometry@.wf(),
            old(self)@.state.board.size() == geometry@.size(),
        ensures
            final(self).wf(),
            match child {
                Some(node) => {
                    &&& node.wf()
                    &&& exists|i: int|
                        0 <= i < old(self)@.pool(geometry@).len() && #[trigger] old(self)@.expanded(
                            geometry@,
                            i,
                            final(self)@,
                            node@,
                        )
                },
                None => {
                    &&& old(self)@.pool(geometry@).len() == 0
                    &&& final(self)@ == (TreeNodeView {
                        untried_actions: Some(Seq::empty()),
                        ..old(self)@
                    })
                },
            },
    {
        self.populate(geometry);
        let untried_actions_length: usize = match &self.untried_actions {
            Some(pool) => pool.len(),
            None => 0,
        };
        match rng.pick_index(untried_actions_length) {
            None => {
                assert(self@.untried_actions->0 =~= Seq::empty());
                None
            },
            Some(action_index) => {
                let child = self.expand_at(action_index);
                assert(old(self)@.expanded(geometry@, action_index as int, self@, child@));
                Some(child)
            },
        }
    }

    /// Runs one rollout from the state of the node: as long as nobody has
    /// won, fewer than `max_depth` actions have been applied and an action is
    /// open, one of the open actions is drawn at random and played. Returns 1
    /// if the rollout ended with the AI's win and 0 otherwise, and the number
    /// of actions applied. The node itself does not change.
    pub fn simulate(&self, geometry: &Geometry, max_depth: u16, rng: &mut RandomSource) -> (result: (
        u16,
        u16,
    ))
        requires
            self.wf(),
            geometry@.wf(),
            self@.state.board.size() == geometry@.size(),
        ensures
            exists|picks: Seq<int>| #[trigger]
                self@.state.simulated(geometry@, picks, max_depth as int, result)
                    && self@.state.finished(geometry@, picks, max_depth as int),
            result.0 <= 1,
            result.1 <= max_depth,
    {
        let mut current_state: State = self.state.duplicate();
        let mut depth: u16 = 0;
        let ghost start = self@.state;
        let ghost g = geometry@;
        let ghost limit = max_depth as int;
        let ghost mut picks: Seq<int> = Seq::empty();

        let terminal = current_state.is_terminal();
        if terminal.0 {
            assert(start.simulated(g, picks, limit, (1u16, depth)));
            assert(start.finished(g, picks, limit));
            return (1, depth);
        }
        if terminal.1 {
            assert(start.simulated(g, picks, limit, (0u16, depth)));
            assert(start.finished(g, picks, limit));
            return (0, depth);
        }
        proof {
            assert forall|rest: Seq<int>| #[trigger]
                current_state@.rollout(g, rest, depth as int, limit) == start.rollout(
                    g,
                    picks + rest,
                    0,
                    limit,
                ) by {
                assert(picks + rest =~= rest);
            }
        }
        while depth < max_depth
            invariant
                depth <= max_depth,
                limit == max_depth,
                g == geometry@,
                geometry@.wf(),
                current_state.wf(),
                current_state@.board.size() == geometry@.size(),
                !current_state@.is_terminal().0,
                !current_state@.is_terminal().1,
                start == self@.state,
                forall|rest: Seq<int>| #[trigger]
                    current_state@.rollout(g, rest, depth as int, limit) == start.rollout(
                        g,
                        picks + rest,
                        0,
                        limit,
                    ),
            decreases max_depth - depth,
        {
            let possible_actions = current_state.get_possible_actions(geometry);
            let ghost before = current_state@;
            match rng.pick_index(possible_actions.len()) {
                None => {
                    proof {
                        let rest = Seq::<int>::empty();
                        assert(picks + rest =~= picks);
                        assert(before.rollout(g, rest, depth as int, limit).win == 0);
                        assert(before.rollout(g, rest, depth as int, limit).end == before);
                        assert(start.simulated(g, picks, limit, (0u16, depth)));
                        assert(start.finished(g, picks, limit));
                    }
                    return (0, depth);
                },
                Some(choice) => {
                    let random_action: Action = possible_actions[choice];
                    proof {
                        current_state.lemma_wf_view();
                        lemma_possible_actions_accepted(before, g, choice as int);
                    }
                    let played: Result<(), CombatError> = current_state.play(random_action);
                    assert(played is Ok);
                    proof {
                        let grown = picks.push(choice as int);
                        assert forall|rest: Seq<int>| #[trigger]
                            current_state@.rollout(g, rest, depth + 1, limit) == start.rollout(
                                g,
                                grown + rest,
                                0,
                                limit,
                            ) by {
                            let longer = seq![choice as int] + rest;
                            assert(longer.drop_first() =~= rest);
                            assert(picks + longer =~= grown + rest);
                            assert(before.rollout(g, longer, depth as int, limit)
                                == start.rollout(g, picks + longer, 0, limit));
                        }
                        picks = grown;
                    }
                    depth += 1;
                    let terminal = current_state.is_terminal();
                    if terminal.0 || terminal.1 {
                        let win: u16 = if terminal.0 {
                            1
                        } else {
                            0
                        };
                        proof {
                            let rest = Seq::<int>::empty();
                            assert(picks + rest =~= picks);
                            assert(current_state@.rollout(g, rest, depth as int, limit).win
                                == win);
                            assert(current_state@.rollout(g, rest, depth as int, limit).end
                                == current_state@);
                            assert(start.simulated(g, picks, limit, (win, depth)));
                            assert(start.finished(g, picks, limit));
                        }
                        return (win, depth);
                    }
                },
            }
        }
        proof {
            let rest = Seq::<int>::empty();
            assert(picks + rest =~= picks);
            assert(current_state@.rollout(g, rest, depth as int, limit).win == 0);
            assert(current_state@.rollout(g, rest, depth as int, limit).depth == depth);
            assert(start.simulated(g, picks, limit, (0u16, depth)));
            assert(start.finished(g, picks, limit));
        }
        (0, depth)
    }

    /// Records the place of the node's parent in the tree.
    pub fn set_parent(&mut self, parent: usize)
        requires
            old(self).wf(),
        ensures
            final(self).wf(),
            final(self)@ == (TreeNodeView { parent: Some(parent), ..old(self)@ }),
    {
        self.parent = Some(parent);
    }

    /// Records the place of a new child in the tree, after those recorded
    /// before.
    pub fn add_child(&mut self, child: usize)
        requires
            old(self).wf(),
        ensures
            final(self).wf(),
            final(self)@ == (TreeNodeView {
                children: old(self)@.children.push(child),
                ..old(self)@
            }),
    {
        self.children.push(child);
    }

    /// Counts one more rollout through the node: one visit, `result.0` wins
    /// and `result.1` turns. A rollout is won once or not at all, and the
    /// visits must leave room in the counters.
    pub fn backpropagate(&mut self, result: (u16, u16))
        requires
            old(self).wf(),
            result.0 <= 1,
            old(self)@.visits < 0xFFFF_FFFF,
        ensures
            final(self).wf(),
            final(self)@ == old(self)@.record(result),
    {
        self.visits = self.visits + 1;
        self.wins = self.wins + result.0 as u64;
        self.turns = self.turns + result.1 as u64;
    }
}

impl TreeNodeView {
    /// Expanding this node with pool entry `i` gives the node `after` and
    /// the child `child`: the entry has left the pool, and the child is a
    /// fresh node for the state in which the entry has been played.
    pub open spec fn expanded(
        self,
        g: GeometryView,
        i: int,
        after: TreeNodeView,
        child: TreeNodeView,
    ) -> bool {
        &&& after == (TreeNodeView { untried_actions: Some(self.pool(g).remove(i)), ..self })
        &&& child == TreeNodeView::fresh(self.state.play(self.pool(g)[i]), self.exploration_constant)
    }
}

} // verus!
