use mcts_rust::node::select_best;
use mcts_rust::{
    Ability, Action, ActionType, Actor, Board, Geometry, MonteCarloTreeSearch, Piece, PieceData,
    RandomSource, SearchTree, State, Stat, TreeNode, UctScorer, WinRatio,
};

struct Uct;

impl UctScorer for Uct {
    fn spec_score(&self, wins: u64, visits: u64, parent_visits: u64, exploration_constant: u32) -> Option<u64> {
        self.score(wins, visits, parent_visits, exploration_constant)
    }

    fn score(&self, wins: u64, visits: u64, parent_visits: u64, exploration_constant: u32) -> Option<u64> {
        let c = exploration_constant as f64 / 1000.0;
        let uct = wins as f64 / visits as f64 + c * ((parent_visits as f64).ln() / visits as f64).sqrt();
        if uct.is_nan() || uct == f64::NEG_INFINITY {
            None
        } else {
            let bits = uct.to_bits();
            Some(if bits >> 63 == 1 { !bits } else { bits | (1 << 63) })
        }
    }
}

fn between(w: usize, a: usize, b: usize) -> Option<Vec<usize>> {
    if a == b {
        return None;
    }
    let (ax, ay, bx, by) = ((a % w) as i64, (a / w) as i64, (b % w) as i64, (b / w) as i64);
    let (dx, dy) = (bx - ax, by - ay);
    if dx != 0 && dy != 0 && dx.abs() != dy.abs() {
        return None;
    }
    let steps = dx.abs().max(dy.abs());
    let mut cells = Vec::new();
    for s in 1..steps {
        cells.push(((ay + dy.signum() * s) * w as i64 + ax + dx.signum() * s) as usize);
    }
    Some(cells)
}

fn grid(w: usize, h: usize) -> Geometry {
    let n = w * h;
    let mut neighbors = Vec::new();
    let mut lines = Vec::new();
    for a in 0..n {
        let (x, y) = (a % w, a / w);
        let mut near = Vec::new();
        if y > 0 {
            near.push(a - w);
        }
        if x > 0 {
            near.push(a - 1);
        }
        if x + 1 < w {
            near.push(a + 1);
        }
        if y + 1 < h {
            near.push(a + w);
        }
        neighbors.push(near);
        lines.push((0..n).map(|b| between(w, a, b)).collect());
    }
    Geometry::new(neighbors, lines).unwrap()
}

fn unit(player: bool, blocks: bool, range: u8, health: i16) -> Piece {
    Piece::new(PieceData {
        name: String::from("unit"),
        index: 0,
        blocks_movement: blocks,
        blocks_los: blocks,
        player_controlled: player,
        ai_controlled: !player,
        movement_range: range,
        health: Stat::new(health),
        abilities: vec![Ability::new()],
    })
}

fn empty() -> Piece {
    Piece::new(PieceData {
        name: String::new(),
        index: 0,
        blocks_movement: false,
        blocks_los: false,
        player_controlled: false,
        ai_controlled: false,
        movement_range: 0,
        health: Stat::new(0),
        abilities: Vec::new(),
    })
}

fn duel(geometry: &Geometry, ai_health: i16, player_health: i16) -> Board {
    let n = geometry.size();
    let mut pieces = vec![unit(false, false, 2, ai_health)];
    for _ in 1..n - 1 {
        pieces.push(empty());
    }
    pieces.push(unit(true, false, 1, player_health));
    Board::new(pieces, geometry).unwrap()
}

fn skirmish(geometry: &Geometry) -> Board {
    // two pieces a side on a 3x3 grid: a faction keeps health on its listed
    // cells when one of its pieces moves away
    let pieces = (0..9)
        .map(|c| match c {
            0 | 1 => unit(false, true, 1, 10),
            7 | 8 => unit(true, true, 1, 10),
            _ => empty(),
        })
        .collect();
    Board::new(pieces, geometry).unwrap()
}

fn step(start: usize, end: usize) -> Action {
    Action::new(ActionType::Move, start, end, None)
}

fn searcher(geometry: &Geometry, ai_health: i16, player_health: i16, iterations: u16) -> MonteCarloTreeSearch {
    let board = duel(geometry, ai_health, player_health);
    let state = State::new(Actor::AI, board.duplicate());
    let mut search = MonteCarloTreeSearch::new(board, Actor::AI, state);
    search.set_iteration_goal(iterations);
    search.set_time_limit(u16::MAX);
    search.set_max_depth(20);
    search
}

#[test]
fn random_source_picks_below_the_length() {
    let mut rng = RandomSource::from_seed(7);
    assert_eq!(rng.pick_index(0), None);
    assert_eq!(rng.pick_index(1), Some(0));
    let mut seen = [false; 5];
    for _ in 0..200 {
        let i = rng.pick_index(5).unwrap();
        assert!(i < 5);
        seen[i] = true;
    }
    assert!(seen.iter().all(|s| *s));
}

#[test]
fn random_source_keeps_its_seed() {
    let mut rng = RandomSource::from_seed(42);
    assert_eq!(rng.seed(), 42);
    for len in 0..20 {
        rng.pick_index(len);
    }
    assert_eq!(rng.seed(), 42);
    assert_eq!(RandomSource::from_seed(0).seed(), 0);
    assert_eq!(RandomSource::from_seed(u64::MAX).seed(), u64::MAX);
    let mut again = RandomSource::from_seed(rng.seed());
    let mut first = RandomSource::from_seed(42);
    for _ in 0..20 {
        assert_eq!(again.pick_index(7), first.pick_index(7));
    }
}

#[test]
fn random_source_repeats_itself_from_the_same_seed() {
    let mut a = RandomSource::from_seed(42);
    let mut b = RandomSource::from_seed(42);
    for _ in 0..50 {
        assert_eq!(a.pick_index(1000), b.pick_index(1000));
    }
}

#[test]
fn select_best_takes_the_first_largest_priority() {
    assert_eq!(select_best(&vec![]), None);
    assert_eq!(select_best(&vec![None, None]), None);
    assert_eq!(select_best(&vec![Some(3), Some(9), Some(9), Some(1)]), Some(1));
    assert_eq!(select_best(&vec![None, Some(0), None, Some(0)]), Some(1));
    assert_eq!(select_best(&vec![Some(1), None, Some(u64::MAX)]), Some(2));
    assert_eq!(select_best(&vec![Some(5)]), Some(0));
}

#[test]
fn select_best_gives_the_same_answer_for_the_same_priorities() {
    let priorities = vec![Some(4), None, Some(8), Some(8), Some(2)];
    let first = select_best(&priorities);
    for _ in 0..10 {
        assert_eq!(select_best(&priorities), first);
    }
}

#[test]
fn fresh_node_has_no_counts_and_no_pool() {
    let geometry = grid(3, 3);
    let node = TreeNode::new(State::new(Actor::AI, duel(&geometry, 10, 10)), 1410);
    assert_eq!((node.wins(), node.visits(), node.turns()), (0, 0, 0));
    assert_eq!(node.parent(), None);
    assert!(node.children().is_empty());
    assert_eq!(node.untried_count(), None);
    assert_eq!(node.exploration_constant(), 1410);
    assert!(!node.is_fully_expanded(&geometry));
    assert_eq!(node.is_terminal(), (false, false));
}

#[test]
fn populate_fills_the_pool_once() {
    let geometry = grid(3, 3);
    let mut node = TreeNode::new(State::new(Actor::AI, duel(&geometry, 10, 10)), 1410);
    node.populate(&geometry);
    // range 2 from the corner of an open 3x3 grid: 1, 2, 3, 4, 6
    assert_eq!(node.untried_count(), Some(5));
    let _ = node.expand_at(0);
    assert_eq!(node.untried_count(), Some(4));
    node.populate(&geometry);
    assert_eq!(node.untried_count(), Some(4));
}

#[test]
fn expand_at_plays_the_chosen_action_on_a_copy() {
    let geometry = grid(3, 3);
    let mut node = TreeNode::new(State::new(Actor::AI, duel(&geometry, 10, 10)), 700);
    node.populate(&geometry);
    let child = node.expand_at(1);
    assert_eq!(child.state().get_last_action(), &Some(step(0, 2)));
    assert!(child.state().board().piece(2).ai_controlled);
    assert!(node.state().board().piece(0).ai_controlled);
    assert_eq!(child.exploration_constant(), 700);
    assert_eq!(child.untried_count(), None);
    assert_eq!((child.wins(), child.visits(), child.turns()), (0, 0, 0));
    assert_eq!(node.state().get_last_action(), &None);
}

#[test]
fn expand_uses_up_the_pool() {
    let geometry = grid(3, 3);
    let mut rng = RandomSource::from_seed(1);
    let mut node = TreeNode::new(State::new(Actor::AI, duel(&geometry, 10, 10)), 1410);
    let mut ends = Vec::new();
    while let Some(child) = node.expand(&geometry, &mut rng) {
        ends.push(child.state().get_last_action().unwrap().end);
        assert!(ends.len() <= 5);
    }
    ends.sort();
    assert_eq!(ends, vec![1, 2, 3, 4, 6]);
    assert!(node.is_fully_expanded(&geometry));
    assert_eq!(node.untried_count(), Some(0));
    assert!(node.expand(&geometry, &mut rng).is_none());
}

#[test]
fn expand_of_a_state_without_actions_makes_no_child() {
    let geometry = grid(2, 1);
    let board = Board::new(vec![unit(false, true, 0, 5), unit(true, true, 0, 5)], &geometry).unwrap();
    let mut node = TreeNode::new(State::new(Actor::AI, board), 1410);
    let mut rng = RandomSource::from_seed(3);
    assert_eq!(node.untried_count(), None);
    assert!(node.is_fully_expanded(&geometry));
    assert!(node.expand(&geometry, &mut rng).is_none());
    assert_eq!(node.untried_count(), Some(0));
    assert!(node.is_fully_expanded(&geometry));
}

#[test]
fn simulate_reports_a_win_that_is_already_there() {
    let geometry = grid(3, 3);
    let mut rng = RandomSource::from_seed(5);
    let won = TreeNode::new(State::new(Actor::AI, duel(&geometry, 10, 0)), 1410);
    assert_eq!(won.simulate(&geometry, 50, &mut rng), (1, 0));
    let lost = TreeNode::new(State::new(Actor::AI, duel(&geometry, 0, 10)), 1410);
    assert_eq!(lost.simulate(&geometry, 50, &mut rng), (0, 0));
    let both = TreeNode::new(State::new(Actor::AI, duel(&geometry, 0, 0)), 1410);
    assert_eq!(both.simulate(&geometry, 50, &mut rng), (1, 0));
}

#[test]
fn simulate_stops_at_the_depth_limit() {
    let geometry = grid(3, 3);
    let mut rng = RandomSource::from_seed(5);
    let node = TreeNode::new(State::new(Actor::AI, duel(&geometry, 10, 10)), 1410);
    assert_eq!(node.simulate(&geometry, 0, &mut rng), (0, 0));
}

#[test]
fn simulate_stops_when_no_action_is_open() {
    let geometry = grid(2, 1);
    let board = Board::new(vec![unit(false, true, 0, 5), unit(true, true, 0, 5)], &geometry).unwrap();
    let node = TreeNode::new(State::new(Actor::AI, board), 1410);
    let mut rng = RandomSource::from_seed(9);
    assert_eq!(node.simulate(&geometry, 30, &mut rng), (0, 0));
}

#[test]
fn simulate_counts_the_actions_it_applies() {
    // the only open action moves the AI's piece off its listed cell, which
    // then holds a piece without health: the Player has won after one action
    let geometry = grid(2, 1);
    let board = Board::new(vec![unit(false, true, 1, 5), empty()], &geometry).unwrap();
    let node = TreeNode::new(State::new(Actor::AI, board), 1410);
    let mut rng = RandomSource::from_seed(11);
    assert_eq!(node.is_terminal(), (true, false));
    assert_eq!(node.simulate(&geometry, 30, &mut rng), (1, 0));
    let board = Board::new(vec![unit(false, true, 1, 5), empty(), unit(true, true, 0, 5)], &grid(3, 1)).unwrap();
    let node = TreeNode::new(State::new(Actor::AI, board), 1410);
    assert_eq!(node.simulate(&grid(3, 1), 30, &mut rng), (0, 1));
}

#[test]
fn simulate_runs_to_the_depth_limit_in_a_game_without_end() {
    // every piece has health and can step onto the middle cell, so the game
    // is never decided and an action is always open
    let geometry = grid(3, 1);
    let walker = |player: bool, ai: bool| {
        Piece::new(PieceData {
            name: String::from("walker"),
            index: 0,
            blocks_movement: false,
            blocks_los: false,
            player_controlled: player,
            ai_controlled: ai,
            movement_range: 1,
            health: Stat::new(1),
            abilities: Vec::new(),
        })
    };
    for max_depth in [0u16, 1, 7, 40] {
        for seed in 0..10 {
            let board =
                Board::new(vec![walker(false, true), walker(false, false), walker(true, false)], &geometry)
                    .unwrap();
            let node = TreeNode::new(State::new(Actor::AI, board), 1410);
            let mut rng = RandomSource::from_seed(seed);
            assert_eq!(node.simulate(&geometry, max_depth, &mut rng), (0, max_depth));
        }
    }
}

#[test]
fn win_ratio_is_the_share_of_won_rollouts() {
    assert_eq!(WinRatio.score(0, 5, 9, 1410), Some(0));
    assert_eq!(WinRatio.score(1, 2, 9, 1410), Some(1 << 31));
    assert_eq!(WinRatio.score(3, 3, 9, 0), Some(1 << 32));
    assert_eq!(WinRatio.score(1, 3, 100, 7), Some(1431655765));
    assert_eq!(WinRatio.score(u64::MAX, 1, 1, 1), Some(u64::MAX));
    assert_eq!(WinRatio.score(1 << 32, 1, 1, 1), Some(u64::MAX));
    assert_eq!(WinRatio.score((1 << 32) - 1, 1, 1, 1), Some(((1u64 << 32) - 1) << 32));
}

#[test]
fn tree_selects_by_win_ratio_without_exploration() {
    let geometry = grid(3, 3);
    let mut rng = RandomSource::from_seed(2);
    let mut tree = SearchTree::new(State::new(Actor::AI, duel(&geometry, 10, 10)), 1410);
    tree.expand(0, &geometry, &mut rng);
    tree.expand(0, &geometry, &mut rng);
    tree.expand(0, &geometry, &mut rng);
    assert_eq!(tree.select_child(0, &WinRatio), None);
    tree.backpropagate(3, (0, 1));
    assert_eq!(tree.select_child(0, &WinRatio), Some(3));
    tree.backpropagate(2, (1, 1));
    tree.backpropagate(2, (0, 1));
    assert_eq!(tree.select_child(0, &WinRatio), Some(2));
    tree.backpropagate(1, (1, 1));
    tree.backpropagate(1, (0, 1));
    // children 1 and 2 both won one of two: the first of them is selected
    assert_eq!(tree.select_child(0, &WinRatio), Some(1));
    tree.backpropagate(3, (1, 1));
    tree.backpropagate(3, (1, 1));
    assert_eq!(tree.select_child(0, &WinRatio), Some(3));
}

#[test]
fn select_leaf_descends_through_fully_expanded_nodes() {
    let geometry = grid(3, 3);
    let mut rng = RandomSource::from_seed(2);
    let mut tree = SearchTree::new(State::new(Actor::AI, skirmish(&geometry)), 1410);
    // an untried action remains at the root
    assert_eq!(tree.select_leaf(&geometry, &WinRatio), 0);
    while tree.expand(0, &geometry, &mut rng).is_some() {}
    assert_eq!(tree.node(0).children(), &vec![1, 2, 3]);
    // the root is used up, but no child has a visit yet
    assert_eq!(tree.select_leaf(&geometry, &WinRatio), 0);
    tree.backpropagate(2, (1, 1));
    tree.backpropagate(3, (0, 1));
    assert_eq!(tree.select_leaf(&geometry, &WinRatio), 2);
    tree.backpropagate(1, (1, 1));
    assert_eq!(tree.select_leaf(&geometry, &WinRatio), 1);
}

#[test]
fn within_budget_needs_both_budgets() {
    let geometry = grid(3, 3);
    let mut search = searcher(&geometry, 10, 10, 3);
    search.set_time_limit(50);
    assert!(search.within_budget(0, 0));
    assert!(search.within_budget(2, 49));
    assert!(!search.within_budget(3, 0));
    assert!(!search.within_budget(2, 50));
    assert!(!search.within_budget(2, u128::MAX));
    search.set_time_limit(0);
    assert!(!search.within_budget(0, 0));
    search.set_time_limit(u16::MAX);
    search.set_iteration_goal(0);
    assert!(!search.within_budget(0, 0));
}

#[test]
fn simulate_never_reports_a_win_while_the_player_stands() {
    let geometry = grid(3, 3);
    let node = TreeNode::new(State::new(Actor::AI, duel(&geometry, 10, 10)), 1410);
    for seed in 0..40 {
        let mut rng = RandomSource::from_seed(seed);
        let (win, depth) = node.simulate(&geometry, 12, &mut rng);
        // the Player's health never changes and its listed cell keeps a
        // living piece only while nothing else is swapped onto it
        assert!(win <= 1);
        assert!(depth <= 12);
        assert_eq!(node.visits(), 0);
    }
}

#[test]
fn node_backpropagate_adds_one_rollout() {
    let geometry = grid(3, 3);
    let mut node = TreeNode::new(State::new(Actor::AI, duel(&geometry, 10, 10)), 1410);
    node.backpropagate((1, 7));
    node.backpropagate((0, 65535));
    node.backpropagate((1, 0));
    assert_eq!((node.wins(), node.visits(), node.turns()), (2, 3, 65542));
}

#[test]
fn node_select_child_maps_places_to_children() {
    let geometry = grid(3, 3);
    let mut node = TreeNode::new(State::new(Actor::AI, duel(&geometry, 10, 10)), 1410);
    node.add_child(4);
    node.add_child(9);
    node.add_child(11);
    assert_eq!(node.select_child(&vec![Some(1), Some(5), Some(5)]), Some(9));
    assert_eq!(node.select_child(&vec![None, None, Some(0)]), Some(11));
    assert_eq!(node.select_child(&vec![None, None, None]), None);
}

#[test]
fn tree_starts_with_its_root() {
    let geometry = grid(3, 3);
    let tree = SearchTree::new(State::new(Actor::AI, duel(&geometry, 10, 10)), 1410);
    assert_eq!(tree.len(), 1);
    assert_eq!(tree.node(0).parent(), None);
    assert_eq!(tree.node(0).visits(), 0);
    assert_eq!(tree.best_child(), None);
    assert_eq!(tree.best_action(), None);
    assert_eq!(tree.select_child(0, &Uct), None);
    assert_eq!(tree.select_leaf(&geometry, &Uct), 0);
}

#[test]
fn tree_expand_links_parent_and_child() {
    let geometry = grid(3, 3);
    let mut rng = RandomSource::from_seed(2);
    let mut tree = SearchTree::new(State::new(Actor::AI, skirmish(&geometry)), 1410);
    assert_eq!(tree.expand(0, &geometry, &mut rng), Some(1));
    assert_eq!(tree.expand(0, &geometry, &mut rng), Some(2));
    assert_eq!(tree.expand(1, &geometry, &mut rng), Some(3));
    assert_eq!(tree.len(), 4);
    assert_eq!(tree.node(0).children(), &vec![1, 2]);
    assert_eq!(tree.node(1).children(), &vec![3]);
    assert_eq!(tree.node(1).parent(), Some(0));
    assert_eq!(tree.node(2).parent(), Some(0));
    assert_eq!(tree.node(3).parent(), Some(1));
    // the AI can move 0 to 3, 1 to 2 and 1 to 4
    assert_eq!(tree.node(0).untried_count(), Some(1));
    assert_eq!(tree.expand(0, &geometry, &mut rng), Some(4));
    assert_eq!(tree.expand(0, &geometry, &mut rng), None);
    assert!(tree.node(0).is_fully_expanded(&geometry));
    assert_eq!(tree.node(3).state().current_turn(), Actor::AI);
    assert_eq!(tree.node(1).state().current_turn(), Actor::Player);
}

#[test]
fn tree_backpropagate_counts_along_the_walk_to_the_root() {
    let geometry = grid(3, 3);
    let mut rng = RandomSource::from_seed(2);
    let mut tree = SearchTree::new(State::new(Actor::AI, skirmish(&geometry)), 1410);
    tree.expand(0, &geometry, &mut rng);
    tree.expand(0, &geometry, &mut rng);
    tree.expand(1, &geometry, &mut rng);
    assert_eq!(tree.len(), 4);
    tree.backpropagate(3, (1, 4));
    tree.backpropagate(2, (0, 9));
    tree.backpropagate(0, (1, 2));
    let counts: Vec<(u64, u64, u64)> =
        (0..4).map(|k| (tree.node(k).wins(), tree.node(k).visits(), tree.node(k).turns())).collect();
    assert_eq!(counts, vec![(2, 3, 15), (1, 1, 4), (0, 1, 9), (1, 1, 4)]);
    // three rollouts were counted: one started from the root, two pass through its children
    let below: u64 = tree.node(0).children().iter().map(|c| tree.node(*c).visits()).sum();
    assert_eq!(tree.node(0).visits(), 1 + below);
    for _ in 0..5 {
        tree.backpropagate(3, (0, 0));
    }
    assert_eq!(tree.node(0).visits(), 8);
    assert_eq!(tree.node(1).visits(), 6);
    assert_eq!(tree.node(3).visits(), 6);
    assert_eq!(tree.node(2).visits(), 1);
}

#[test]
fn tree_select_child_skips_children_without_visits() {
    let geometry = grid(3, 3);
    let mut rng = RandomSource::from_seed(2);
    let mut tree = SearchTree::new(State::new(Actor::AI, duel(&geometry, 10, 10)), 1410);
    tree.expand(0, &geometry, &mut rng);
    tree.expand(0, &geometry, &mut rng);
    assert_eq!(tree.select_child(0, &Uct), None);
    tree.backpropagate(2, (0, 3));
    assert_eq!(tree.select_child(0, &Uct), Some(2));
    tree.backpropagate(1, (1, 3));
    assert_eq!(tree.select_child(0, &Uct), Some(1));
    assert_eq!(tree.select_child(0, &Uct), Some(1));
    tree.backpropagate(1, (0, 3));
    tree.backpropagate(1, (0, 3));
    tree.backpropagate(1, (0, 3));
    // 1: 1/4 + 1.41 sqrt(ln 5 / 4) = 1.144..., 2: 0 + 1.41 sqrt(ln 5 / 1) = 1.788...
    assert_eq!(tree.select_child(0, &Uct), Some(2));
}

#[test]
fn tree_best_child_has_the_most_visits_then_the_most_wins() {
    let geometry = grid(3, 3);
    let mut rng = RandomSource::from_seed(2);
    let mut tree = SearchTree::new(State::new(Actor::AI, duel(&geometry, 10, 10)), 1410);
    tree.expand(0, &geometry, &mut rng);
    tree.expand(0, &geometry, &mut rng);
    tree.expand(0, &geometry, &mut rng);
    assert_eq!(tree.best_child(), Some(1));
    tree.backpropagate(2, (0, 1));
    tree.backpropagate(3, (1, 1));
    assert_eq!(tree.best_child(), Some(3));
    tree.backpropagate(1, (1, 1));
    assert_eq!(tree.best_child(), Some(1));
    tree.backpropagate(2, (0, 1));
    assert_eq!(tree.best_child(), Some(2));
    assert_eq!(tree.best_action(), *tree.node(2).state().get_last_action());
}

#[test]
fn iterate_counts_one_rollout_at_the_root() {
    let geometry = grid(3, 3);
    let mut rng = RandomSource::from_seed(4);
    let mut tree = SearchTree::new(State::new(Actor::AI, duel(&geometry, 10, 10)), 1410);
    for n in 1..=30u64 {
        tree.iterate(&geometry, &Uct, &mut rng, 10);
        assert_eq!(tree.node(0).visits(), n);
        assert!(tree.len() as u64 <= n + 1);
    }
}

#[test]
fn search_conserves_rollouts() {
    let geometry = grid(3, 3);
    let board = skirmish(&geometry);
    let state = State::new(Actor::AI, board.duplicate());
    let mut search = MonteCarloTreeSearch::new(board, Actor::AI, state);
    search.set_iteration_goal(300);
    search.set_time_limit(u16::MAX);
    search.set_max_depth(20);
    let mut rng = RandomSource::from_seed(8);
    let tree = search.run(&geometry, &Uct, &mut rng);
    assert_eq!(tree.node(0).visits(), 300);
    assert!(tree.len() > 4);
    assert!((0..tree.len()).any(|k| tree.node(k).parent().map_or(false, |p| p > 0)));
    for k in 0..tree.len() {
        let node = tree.node(k);
        let below: u64 = node.children().iter().map(|c| tree.node(*c).visits()).sum();
        assert!(node.visits() >= below);
        assert!(node.wins() <= node.visits());
        if k > 0 {
            assert!(node.visits() >= 1);
            assert!(node.parent().unwrap() < k);
        }
    }
}

#[test]
fn search_returns_an_action_when_the_game_is_already_won() {
    let geometry = grid(3, 3);
    let search = searcher(&geometry, 10, 0, 50);
    assert!(search.initial_state().check_win_condition(Actor::Player));
    let mut rng = RandomSource::from_seed(21);
    let tree = search.run(&geometry, &Uct, &mut rng);
    assert_eq!(tree.node(0).visits(), 50);
    assert_eq!(tree.node(0).wins(), 50);
    assert_eq!(tree.node(0).turns(), 0);
    let mut rng = RandomSource::from_seed(21);
    let best = search.search(&geometry, &Uct, &mut rng).unwrap();
    assert_eq!(best.action_type, ActionType::Move);
    assert_eq!(best.start, 0);
    assert!([1usize, 2, 3, 4, 6].contains(&best.end));
}

#[test]
fn search_is_reproducible_from_a_seed() {
    let geometry = grid(3, 3);
    let search = searcher(&geometry, 10, 10, 200);
    let mut a = RandomSource::from_seed(77);
    let mut b = RandomSource::from_seed(77);
    assert_eq!(search.search(&geometry, &Uct, &mut a), search.search(&geometry, &Uct, &mut b));
}

#[test]
fn search_without_budget_returns_nothing() {
    let geometry = grid(3, 3);
    let mut search = searcher(&geometry, 10, 10, 0);
    let mut rng = RandomSource::from_seed(1);
    assert_eq!(search.search(&geometry, &Uct, &mut rng), None);
    search.set_iteration_goal(100);
    search.set_time_limit(0);
    assert_eq!(search.search(&geometry, &Uct, &mut rng), None);
}

#[test]
fn search_without_open_actions_returns_nothing() {
    let geometry = grid(2, 1);
    let board = Board::new(vec![unit(false, true, 0, 5), unit(true, true, 0, 5)], &geometry).unwrap();
    let state = State::new(Actor::AI, board.duplicate());
    let mut search = MonteCarloTreeSearch::new(board, Actor::AI, state);
    search.set_iteration_goal(10);
    search.set_time_limit(u16::MAX);
    let mut rng = RandomSource::from_seed(1);
    let tree = search.run(&geometry, &Uct, &mut rng);
    assert_eq!(tree.len(), 1);
    assert_eq!(tree.node(0).visits(), 10);
    assert_eq!(search.search(&geometry, &Uct, &mut rng), None);
}

#[test]
fn search_starts_with_the_default_budgets() {
    let geometry = grid(3, 3);
    let board = duel(&geometry, 10, 10);
    let state = State::new(Actor::AI, board.duplicate());
    let mut search = MonteCarloTreeSearch::new(board, Actor::AI, state);
    assert_eq!(search.exploration_constant(), 1410);
    assert_eq!(search.time_limit(), 1000);
    assert_eq!(search.max_depth(), 500);
    assert_eq!(search.iteration_goal(), 20000);
    assert_eq!(search.initial_player(), Actor::AI);
    assert_eq!(search.initial_board().size(), 9);
    search.set_exploration_constant(2000);
    search.set_max_depth(3);
    assert_eq!(search.exploration_constant(), 2000);
    assert_eq!(search.max_depth(), 3);
}
