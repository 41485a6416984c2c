//! The search controller: it grows a search tree by repeated selection,
//! expansion, rollout and backpropagation until a budget is used up, and
//! recommends the action that leads to the most visited child of the root.

use crate::action::Action;
use crate::board::{Board, BoardView};
use crate::geometry::{Geometry, GeometryView};
use crate::random::RandomSource;
use crate::state::{Actor, State, StateView};
use crate::node::TreeNodeView;
use crate::tree::{
    lemma_backpropagated_legal, lemma_backpropagation_conserves, lemma_best_action_legal,
    lemma_root_on_path, SearchTree, SearchTreeView, UctScorer,
};
use std::time::{Duration, Instant};
use vstd::prelude::*;

verus! {

/// Makes `std::time::Instant` known as a type whose values are only passed
/// on, never looked into.
#[verifier::external_type_specification]
#[verifier::external_body]
pub struct ExInstant(Instant);

/// Calls `std::time::Instant::now`. Nothing is claimed about the instant.
#[verifier::external_body]
fn clock_now() -> (now: Instant) {
    Instant::now()
}

/// Calls `std::time::Instant::elapsed`. Nothing is claimed about the time
/// that has passed.
#[verifier::external_body]
fn clock_elapsed(since: &Instant) -> (elapsed: Duration) {
    since.elapsed()
}

/// Calls `std::time::Duration::as_millis`. Nothing is claimed about the
/// number.
#[verifier::external_body]
fn duration_millis(duration: &Duration) -> (millis: u128) {
    duration.as_millis()
}

/// The exploration constant a search starts with, in thousandths.
pub const DEFAULT_EXPLORATION_CONSTANT: u32 = 1410;

/// The time budget a search starts with, in milliseconds.
pub const DEFAULT_TIME_LIMIT: u16 = 1000;

/// The rollout depth limit a search starts with.
pub const DEFAULT_MAX_DEPTH: u16 = 500;

/// The iteration budget a search starts with.
pub const DEFAULT_ITERATION_GOAL: u16 = 20000;

impl SearchTreeView {
    /// The node at which the selection phase stops when it starts at `node`:
    /// `node` itself if an untried action remains in it, if the game is
    /// decided in it, or if none of its children is selected; otherwise the
    /// node at which it stops when it starts at the selected child.
    pub open spec fn leaf_below<S: UctScorer>(self, g: GeometryView, scorer: S, node: int) -> int
        decreases self.len() - node,
    {
        if node < 0 || node >= self.len() || !self.nodes[node].fully_expanded(g)
            || self.nodes[node].state.decided() {
            node
        } else {
            match self.selected(node, self.scored(node, scorer)) {
                Some(child) => if node < child < self.len() {
                    self.leaf_below(g, scorer, child as int)
                } else {
                    node
                },
                None => node,
            }
        }
    }

    /// The node at which the selection phase stops: it starts at the root
    /// and goes to the selected child as long as the node at hand is fully
    /// expanded and undecided and a child is selected.
    pub open spec fn selected_leaf<S: UctScorer>(self, g: GeometryView, scorer: S) -> int {
        self.leaf_below(g, scorer, 0)
    }

    /// After the selection phase has stopped at `leaf`, the expansion phase
    /// leaves the tree `grown` and the rollout starts from `start`: a fully
    /// expanded leaf is left alone, and any other leaf gets one new child,
    /// from which the rollout starts.
    pub open spec fn expanded_at(
        self,
        g: GeometryView,
        leaf: int,
        grown: SearchTreeView,
        start: int,
    ) -> bool {
        if self.nodes[leaf].fully_expanded(g) {
            grown == self && start == leaf
        } else {
            start == self.len() && exists|i: int|
                0 <= i < self.nodes[leaf].pool(g).len() && grown == #[trigger] self.grown(g, leaf, i)
        }
    }

    /// `after` is this tree after one iteration under `scorer` that left the
    /// tree `grown` after expansion, and ran from `start` to its end the
    /// rollout with choices `picks` and result `result`.
    pub open spec fn iteration<S: UctScorer>(
        self,
        g: GeometryView,
        scorer: S,
        max_depth: int,
        grown: SearchTreeView,
        start: int,
        picks: Seq<int>,
        result: (u16, u16),
        after: SearchTreeView,
    ) -> bool {
        &&& self.expanded_at(g, self.selected_leaf(g, scorer), grown, start)
        &&& grown.nodes[start].state.simulated(g, picks, max_depth, result)
        &&& grown.nodes[start].state.finished(g, picks, max_depth)
        &&& after == grown.backpropagated(start, result)
    }

    /// `after` is this tree after one iteration under `scorer` with rollouts
    /// of at most `max_depth` actions, whatever was drawn in it.
    pub open spec fn iterated<S: UctScorer>(
        self,
        g: GeometryView,
        scorer: S,
        max_depth: int,
        after: SearchTreeView,
    ) -> bool {
        exists|grown: SearchTreeView, start: int, picks: Seq<int>, result: (u16, u16)| #[trigger]
            self.iteration(g, scorer, max_depth, grown, start, picks, result, after)
    }

    /// `after` is this tree after `count` iterations under `scorer`.
    pub open spec fn grows_to<S: UctScorer>(
        self,
        g: GeometryView,
        scorer: S,
        max_depth: int,
        count: nat,
        after: SearchTreeView,
    ) -> bool
        decreases count,
    {
        if count == 0 {
            after == self
        } else {
            exists|mid: SearchTreeView|
                self.grows_to(g, scorer, max_depth, (count - 1) as nat, mid) && #[trigger] mid.iterated(
                    g,
                    scorer,
                    max_depth,
                    after,
                )
        }
    }

    /// `after` keeps what this tree holds: it has at least the nodes of this
    /// tree, each with the state, the parent and the exploration constant it
    /// had, with the visits it had or one more, and with no fewer children.
    pub open spec fn kept_by(self, after: SearchTreeView) -> bool {
        &&& self.len() <= after.len()
        &&& forall|k: int|
            0 <= k < self.len() ==> {
                &&& (#[trigger] after.nodes[k]).state == self.nodes[k].state
                &&& after.nodes[k].parent == self.nodes[k].parent
                &&& after.nodes[k].exploration_constant == self.nodes[k].exploration_constant
                &&& self.nodes[k].visits <= after.nodes[k].visits <= self.nodes[k].visits + 1
                &&& self.nodes[k].children.len() <= after.nodes[k].children.len()
            }
    }
}

impl SearchTree {
    /// The selection phase: starting at the root, goes to the selected child
    /// as long as the node at hand is fully expanded and undecided and a
    /// child is selected. Returns the node at which the descent stops.
    pub fn select_leaf<S: UctScorer>(&self, geometry: &Geometry, scorer: &S) -> (leaf: usize)
        requires
            self.wf(),
            geometry@.wf(),
            self@.nodes[0].state.board.size() == geometry@.size(),
        ensures
            leaf == self@.selected_leaf(geometry@, *scorer),
            leaf < self@.len(),
    {
        proof {
            self.lemma_wf_view();
        }
        let mut current: usize = 0;
        let mut descending: bool = true;
        while descending
            invariant
                self.wf(),
                geometry@.wf(),
                self@.nodes[0].state.board.size() == geometry@.size(),
                current < self@.len(),
                self@.leaf_below(geometry@, *scorer, current as int) == self@.selected_leaf(
                    geometry@,
                    *scorer,
                ),
                !descending ==> self@.leaf_below(geometry@, *scorer, current as int) == current,
            decreases
                    self@.len() - current + if descending {
                        1int
                    } else {
                        0int
                    },
        {
            let node = self.node(current);
            let terminal = node.is_terminal();
            if node.is_fully_expanded(geometry) && !terminal.0 && !terminal.1 {
                match self.select_child(current, scorer) {
                    None => {
                        descending = false;
                    },
                    Some(child) => {
                        current = child;
                    },
                }
            } else {
                descending = false;
            }
        }
        current
    }

    /// One iteration of the search: selects a leaf, expands it once if an
    /// untried action remains in it, runs one rollout from the new node, or
    /// from the leaf if it made none, and counts the rollout from that node
    /// up to the root.
    pub fn iterate<S: UctScorer>(
        &mut self,
        geometry: &Geometry,
        scorer: &S,
        rng: &mut RandomSource,
        max_depth: u16,
    )
        requires
            old(self).wf(),
            old(self)@.len() < usize::MAX,
            old(self)@.nodes[0].visits < 0xFFFF_FFFF,
            geometry@.wf(),
            old(self)@.nodes[0].state.board.size() == geometry@.size(),
        ensures
            final(self).wf(),
            old(self)@.iterated(geometry@, *scorer, max_depth as int, final(self)@),
            final(self)@.len() <= old(self)@.len() + 1,
            final(self)@.rollouts.len() == old(self)@.rollouts.len() + 1,
            final(self)@.nodes[0].visits == old(self)@.nodes[0].visits + 1,
            old(self)@.kept_by(final(self)@),
            old(self)@.legal(geometry@) ==> final(self)@.legal(geometry@),
    {
        let ghost before = self@;
        proof {
            self.lemma_wf_view();
        }
        let leaf: usize = self.select_leaf(geometry, scorer);
        let mut start: usize = leaf;
        if !self.node(leaf).is_fully_expanded(geometry) {
            match self.expand(leaf, geometry, rng) {
                Some(child) => {
                    start = child;
                },
                None => {},
            }
        }
        let ghost grown = self@;
        proof {
            self.lemma_wf_view();
            assert(before.expanded_at(geometry@, leaf as int, grown, start as int));
            assert(before.kept_by(grown));
            assert(grown.nodes[0].visits == before.nodes[0].visits);
            assert(grown.rollouts == before.rollouts);
        }
        let result = self.simulate(start, geometry, max_depth, rng);
        self.backpropagate(start, result);
        proof {
            let picks = choose|picks: Seq<int>| #[trigger]
                grown.nodes[start as int].state.simulated(geometry@, picks, max_depth as int, result)
                    && grown.nodes[start as int].state.finished(
                    geometry@,
                    picks,
                    max_depth as int,
                );
            assert(before.iteration(
                geometry@,
                *scorer,
                max_depth as int,
                grown,
                start as int,
                picks,
                result,
                self@,
            ));
            assert(before.iterated(geometry@, *scorer, max_depth as int, self@));
            if before.legal(geometry@) {
                lemma_backpropagated_legal(grown, geometry@, start as int, result);
            }
            lemma_backpropagation_conserves(grown, start as int, result);
            lemma_root_on_path(grown, start as int);
            assert(grown.backpropagated(start as int, result).nodes[0].visits
                == grown.nodes[0].visits + 1);
            let after = self@;
            assert forall|k: int| 0 <= k < before.len() implies {
                &&& (#[trigger] after.nodes[k]).state == before.nodes[k].state
                &&& after.nodes[k].parent == before.nodes[k].parent
                &&& after.nodes[k].exploration_constant == before.nodes[k].exploration_constant
                &&& before.nodes[k].visits <= after.nodes[k].visits <= before.nodes[k].visits + 1
                &&& before.nodes[k].children.len() <= after.nodes[k].children.len()
            } by {
                assert(grown.nodes[k].state == before.nodes[k].state);
                assert(before.nodes[k].children.len() <= grown.nodes[k].children.len());
            }
        }
    }
}

/// The mathematical content of a [`MonteCarloTreeSearch`].
#[verifier::ext_equal]
pub struct MonteCarloTreeSearchView {
    /// The exploration constant, in thousandths.
    pub exploration_constant: u32,
    /// The time budget, in milliseconds.
    pub time_limit: u16,
    /// The rollout depth limit.
    pub max_depth: u16,
    /// The iteration budget.
    pub iteration_goal: u16,
    /// The board the game starts on.
    pub initial_board: BoardView,
    /// The faction the search decides for.
    pub initial_player: Actor,
    /// The state the search starts from.
    pub initial_state: StateView,
}

impl MonteCarloTreeSearchView {
    /// The state the search starts from is the initial player's turn on the
    /// initial board.
    pub open spec fn agrees(self) -> bool {
        self.initial_state.board == self.initial_board && self.initial_state.current_turn
            == self.initial_player
    }

    /// Whether one more iteration may run after `iterations` iterations and
    /// `elapsed_millis` milliseconds: both budgets must have something left.
    pub open spec fn within_budget(self, iterations: u16, elapsed_millis: u128) -> bool {
        iterations < self.iteration_goal && elapsed_millis < self.time_limit
    }

    /// The tree a search starts with: a fresh root for the initial state.
    pub open spec fn root_tree(self) -> SearchTreeView {
        SearchTreeView {
            nodes: seq![TreeNodeView::fresh(self.initial_state, self.exploration_constant)],
            rollouts: Seq::empty(),
        }
    }

    /// `tree` is what a search under `scorer` can grow on grid `g`: the
    /// starting tree after some number of iterations within the iteration
    /// budget, none if the time budget is zero.
    pub open spec fn grown_tree<S: UctScorer>(
        self,
        g: GeometryView,
        scorer: S,
        tree: SearchTreeView,
    ) -> bool {
        &&& tree.rollouts.len() <= self.iteration_goal
        &&& self.time_limit == 0 ==> tree.rollouts.len() == 0
        &&& self.root_tree().grows_to(g, scorer, self.max_depth as int, tree.rollouts.len(), tree)
    }

    /// `best` is what a search under `scorer` recommends after growing
    /// `tree`: the action that leads to the robust child of the root, which
    /// there is as soon as one iteration ran and an action is open in the
    /// initial state.
    pub open spec fn recommended<S: UctScorer>(
        self,
        g: GeometryView,
        scorer: S,
        tree: SearchTreeView,
        best: Option<Action>,
    ) -> bool {
        &&& self.grown_tree(g, scorer, tree)
        &&& best == tree.best_action()
        &&& tree.rollouts.len() >= 1 && self.initial_state.possible_actions(g).len() > 0
            ==> best is Some
    }
}

/// The search controller: the budgets of a search and the position it starts
/// from.
pub struct MonteCarloTreeSearch {
    exploration_constant: u32,
    time_limit: u16,
    max_depth: u16,
    iteration_goal: u16,
    initial_board: Board,
    initial_player: Actor,
    initial_state: State,
}

impl View for MonteCarloTreeSearch {
    type V = MonteCarloTreeSearchView;

    closed spec fn view(&self) -> MonteCarloTreeSearchView {
        MonteCarloTreeSearchView {
            exploration_constant: self.exploration_constant,
            time_limit: self.time_limit,
            max_depth: self.max_depth,
            iteration_goal: self.iteration_goal,
            initial_board: self.initial_board@,
            initial_player: self.initial_player,
            initial_state: self.initial_state@,
        }
    }
}

impl MonteCarloTreeSearch {
    /// The controller is consistent: its board and its state are, and the
    /// state is the initial player's turn on the initial board.
    pub closed spec fn wf(&self) -> bool {
        &&& self.initial_board.wf()
        &&& self.initial_state.wf()
        &&& self@.agrees()
    }


    /// A search from `initial_state`, which is the turn of `initial_player`
    /// on `initial_board`, with the default budgets: exploration constant
    /// 1.41, one second, rollouts of at most 500 actions, 20000 iterations.
    pub fn new(initial_board: Board, initial_player: Actor, initial_state: State) -> (search:
        MonteCarloTreeSearch)
        requires
            initial_board.wf(),
            initial_state.wf(),
            initial_state@.board == initial_board@,
            initial_state@.current_turn == initial_player,
        ensures
            search.wf(),
            search@ == (MonteCarloTreeSearchView {
                exploration_constant: DEFAULT_EXPLORATION_CONSTANT,
                time_limit: DEFAULT_TIME_LIMIT,
                max_depth: DEFAULT_MAX_DEPTH,
                iteration_goal: DEFAULT_ITERATION_GOAL,
                initial_board: initial_board@,
                initial_player,
                initial_state: initial_state@,
            }),
    {
        MonteCarloTreeSearch {
            exploration_constant: DEFAULT_EXPLORATION_CONSTANT,
            time_limit: DEFAULT_TIME_LIMIT,
            max_depth: DEFAULT_MAX_DEPTH,
            iteration_goal: DEFAULT_ITERATION_GOAL,
            initial_board,
            initial_player,
            initial_state,
        }
    }

    /// Sets the exploration constant, in thousandths.
    pub fn set_exploration_constant(&mut self, exploration_constant: u32)
        ensures
            final(self)@ == (MonteCarloTreeSearchView { exploration_constant, ..old(self)@ }),
            old(self).wf() ==> final(self).wf(),
    {
        self.exploration_constant = exploration_constant;
    }

    /// Sets the time budget, in milliseconds.
    pub fn set_time_limit(&mut self, time_limit: u16)
        ensures
            final(self)@ == (MonteCarloTreeSearchView { time_limit, ..old(self)@ }),
            old(self).wf() ==> final(self).wf(),
    {
        self.time_limit = time_limit;
    }

    /// Sets the rollout depth limit.
    pub fn set_max_depth(&mut self, max_depth: u16)
        ensures
            final(self)@ == (MonteCarloTreeSearchView { max_depth, ..old(self)@ }),
            old(self).wf() ==> final(self).wf(),
    {
        self.max_depth = max_depth;
    }

    /// Sets the iteration budget.
    pub fn set_iteration_goal(&mut self, iteration_goal: u16)
        ensures
            final(self)@ == (MonteCarloTreeSearchView { iteration_goal, ..old(self)@ }),
            old(self).wf() ==> final(self).wf(),
    {
        self.iteration_goal = iteration_goal;
    }

    /// The exploration constant, in thousandths.
    pub fn exploration_constant(&self) -> (c: u32)
        ensures
            c == self@.exploration_constant,
    {
        self.exploration_constant
    }

    /// The time budget, in milliseconds.
    pub fn time_limit(&self) -> (limit: u16)
        ensures
            limit == self@.time_limit,
    {
        self.time_limit
    }

    /// The rollout depth limit.
    pub fn max_depth(&self) -> (depth: u16)
        ensures
            depth == self@.max_depth,
    {
        self.max_depth
    }

    /// The iteration budget.
    pub fn iteration_goal(&self) -> (goal: u16)
        ensures
            goal == self@.iteration_goal,
    {
        self.iteration_goal
    }

    /// The faction the search decides for.
    pub fn initial_player(&self) -> (actor: Actor)
        ensures
            actor == self@.initial_player,
    {
        self.initial_player
    }

    /// The board the game starts on.
    pub fn initial_board(&self) -> (board: &Board)
        ensures
            board@ == self@.initial_board,
    {
        &self.initial_board
    }

    /// The state the search starts from.
    pub fn initial_state(&self) -> (state: &State)
        ensures
            state@ == self@.initial_state,
    {
        &self.initial_state
    }

    /// Whether one more iteration may run after `iterations` iterations and
    /// `elapsed_millis` milliseconds: both budgets must have something left.
    pub fn within_budget(&self, iterations: u16, elapsed_millis: u128) -> (go: bool)
        ensures
            go == self@.within_budget(iterations, elapsed_millis),
    {
        iterations < self.iteration_goal && elapsed_millis < self.time_limit as u128
    }

    /// Grows a search tree from the initial state: reads the time that has
    /// passed and, as long as both budgets have something left, runs one
    /// more iteration.
    ///
    /// The tree that comes back is consistent, its root holds the initial
    /// state, and its root has one visit per iteration that ran. How many
    /// iterations ran is for the clock to decide.
    pub fn run<S: UctScorer>(&self, geometry: &Geometry, scorer: &S, rng: &mut RandomSource) -> (tree:
        SearchTree)
        requires
            self.wf(),
            geometry@.wf(),
            self@.initial_state.board.size() == geometry@.size(),
        ensures
            tree.wf(),
            self@.grown_tree(geometry@, *scorer, tree@),
            tree@.nodes[0].state == self@.initial_state,
            tree@.nodes[0].exploration_constant == self@.exploration_constant,
            tree@.nodes[0].visits == tree@.rollouts.len(),
            tree@.len() <= tree@.rollouts.len() + 1,
            tree@.legal(geometry@),
            tree@.rollouts.len() >= 1 && self@.initial_state.possible_actions(geometry@).len() > 0
                ==> tree@.nodes[0].children.len() >= 1,
    {
        let started = clock_now();
        let mut tree = SearchTree::new(self.initial_state.duplicate(), self.exploration_constant);
        let mut iterations: u16 = 0;
        let mut going: bool = true;
        proof {
            tree.lemma_wf_view();
            assert(tree@.nodes[0].pool_legal(geometry@));
            assert(tree@ =~= self@.root_tree());
        }
        while going
            invariant
                self.wf(),
                tree@.legal(geometry@),
                self@.root_tree().grows_to(
                    geometry@,
                    *scorer,
                    self@.max_depth as int,
                    iterations as nat,
                    tree@,
                ),
                geometry@.wf(),
                self@.initial_state.board.size() == geometry@.size(),
                tree.wf(),
                tree@.len() >= 1,
                tree@.nodes[0].state == self@.initial_state,
                tree@.nodes[0].exploration_constant == self@.exploration_constant,
                tree@.nodes[0].visits == iterations,
                tree@.rollouts.len() == iterations,
                tree@.len() <= iterations + 1,
                iterations <= self@.iteration_goal,
                self@.time_limit == 0 ==> iterations == 0,
                iterations == 0 ==> tree@ == self@.root_tree(),
                iterations >= 1 && self@.initial_state.possible_actions(geometry@).len() > 0
                    ==> tree@.nodes[0].children.len() >= 1,
            decreases
                    self@.iteration_goal - iterations + if going {
                        1int
                    } else {
                        0int
                    },
        {
            let elapsed = clock_elapsed(&started);
            if self.within_budget(iterations, duration_millis(&elapsed)) {
                let ghost before = tree@;
                tree.iterate(geometry, scorer, rng, self.max_depth);
                proof {
                    tree.lemma_wf_view();
                    assert(before.iterated(geometry@, *scorer, self@.max_depth as int, tree@));
                    if iterations == 0 && self@.initial_state.possible_actions(geometry@).len() > 0 {
                        lemma_first_iteration_expands_root(
                            before,
                            geometry@,
                            *scorer,
                            self@.max_depth as int,
                            tree@,
                        );
                    }
                }
                iterations += 1;
            } else {
                going = false;
            }
        }
        tree
    }

    /// Searches for the best action from the initial state: grows a search
    /// tree within the budgets and returns the action that leads to the
    /// robust child of its root, the child with the most visits and, among
    /// those, the most wins. Returns `None` when the root got no child,
    /// because no iteration ran or no action is open in the initial state.
    pub fn search<S: UctScorer>(&self, geometry: &Geometry, scorer: &S, rng: &mut RandomSource) -> (best:
        Option<Action>)
        requires
            self.wf(),
            geometry@.wf(),
            self@.initial_state.board.size() == geometry@.size(),
        ensures
            exists|tree: SearchTreeView| #[trigger]
                self@.recommended(geometry@, *scorer, tree, best),
            best matches Some(action) ==> self@.initial_state.possible_actions(geometry@).contains(
                action,
            ),
            self@.initial_state.possible_actions(geometry@).len() == 0 ==> best is None,
            self@.time_limit == 0 || self@.iteration_goal == 0 ==> best is None,
    {
        let tree = self.run(geometry, scorer, rng);
        proof {
            tree.lemma_wf_view();
            lemma_best_action_legal(tree@, geometry@);
            assert(self@.recommended(geometry@, *scorer, tree@, tree@.best_action()));
            if tree@.rollouts.len() == 0 {
                assert(tree@.len() == 1);
                if tree@.nodes[0].children.len() > 0 {
                    assert(tree@.linked_down(0, 0));
                }
            }
        }
        tree.best_action()
    }
}

/// The first iteration on a tree that consists of a root with an open action
/// gives the root a child.
pub proof fn lemma_first_iteration_expands_root<S: UctScorer>(
    t: SearchTreeView,
    g: GeometryView,
    scorer: S,
    max_depth: int,
    after: SearchTreeView,
)
    requires
        t.len() >= 1,
        t.nodes[0].pool(g).len() > 0,
        t.iterated(g, scorer, max_depth, after),
    ensures
        after.nodes[0].children.len() >= 1,
{
    let (grown, start, picks, result) = choose|
        grown: SearchTreeView,
        start: int,
        picks: Seq<int>,
        result: (u16, u16),
    | #[trigger] t.iteration(g, scorer, max_depth, grown, start, picks, result, after);
    assert(t.selected_leaf(g, scorer) == 0);
    let i = choose|i: int| 0 <= i < t.nodes[0].pool(g).len() && grown == #[trigger] t.grown(g, 0, i);
    assert(grown.nodes[0].children.len() >= 1);
}

} // verus!
