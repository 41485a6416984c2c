use mcts_rust::{
    Ability, Action, ActionType, Board, CombatError, Geometry, Piece, PieceData, Stat,
};

fn line(n: usize) -> Geometry {
    let mut neighbors = Vec::new();
    let mut lines = Vec::new();
    for a in 0..n {
        let mut near = Vec::new();
        if a > 0 {
            near.push(a - 1);
        }
        if a + 1 < n {
            near.push(a + 1);
        }
        neighbors.push(near);
        let mut row = Vec::new();
        for b in 0..n {
            if a == b {
                row.push(None);
            } else {
                row.push(Some((a.min(b) + 1..a.max(b)).collect()));
            }
        }
        lines.push(row);
    }
    Geometry::new(neighbors, lines).unwrap()
}

fn between(w: usize, a: usize, b: usize) -> Option<Vec<usize>> {
    if a == b {
        return None;
    }
    let (ax, ay, bx, by) = ((a % w) as i64, (a / w) as i64, (b % w) as i64, (b / w) as i64);
    let (dx, dy) = (bx - ax, by - ay);
    if dx != 0 && dy != 0 && dx.abs() != dy.abs() {
        return None;
    }
    let steps = dx.abs().max(dy.abs());
    let mut cells = Vec::new();
    for s in 1..steps {
        let x = ax + dx.signum() * s;
        let y = ay + dy.signum() * s;
        cells.push((y * w as i64 + x) as usize);
    }
    Some(cells)
}

fn grid(w: usize, h: usize) -> Geometry {
    let n = w * h;
    let mut neighbors = Vec::new();
    let mut lines = Vec::new();
    for a in 0..n {
        let (x, y) = (a % w, a / w);
        let mut near = Vec::new();
        if y > 0 {
            near.push(a - w);
        }
        if x > 0 {
            near.push(a - 1);
        }
        if x + 1 < w {
            near.push(a + 1);
        }
        if y + 1 < h {
            near.push(a + w);
        }
        neighbors.push(near);
        lines.push((0..n).map(|b| between(w, a, b)).collect());
    }
    Geometry::new(neighbors, lines).unwrap()
}

fn empty() -> Piece {
    piece(false, false, false, false, 0, 0)
}

fn piece(player: bool, ai: bool, blocks_movement: bool, blocks_los: bool, range: u8, health: i16) -> Piece {
    Piece::new(PieceData {
        name: String::from("piece"),
        index: 99,
        blocks_movement,
        blocks_los,
        player_controlled: player,
        ai_controlled: ai,
        movement_range: range,
        health: Stat::new(health),
        abilities: vec![Ability::new()],
    })
}

fn wall() -> Piece {
    piece(false, false, true, true, 0, 0)
}

fn board_of(geometry: &Geometry, pieces: Vec<Piece>) -> Board {
    Board::new(pieces, geometry).unwrap()
}

#[test]
fn stat_starts_at_its_initial_value() {
    assert_eq!(Stat::new(10).get_current_value(), 10);
    assert_eq!(Stat::new(-3).get_current_value(), -3);
    assert_eq!(Stat::new(i16::MIN).get_current_value(), i16::MIN);
    assert_eq!(Stat::new(7), Stat::new(7));
    assert_ne!(Stat::new(7), Stat::new(8));
}

#[test]
fn piece_takes_over_the_values_it_is_made_from() {
    let p = Piece::new(PieceData {
        name: String::from("scout"),
        index: 4,
        blocks_movement: true,
        blocks_los: false,
        player_controlled: false,
        ai_controlled: true,
        movement_range: 3,
        health: Stat::new(12),
        abilities: vec![Ability::new(), Ability::new()],
    });
    assert_eq!(p.index, 4);
    assert!(p.blocks_movement);
    assert!(!p.blocks_los);
    assert!(!p.player_controlled);
    assert!(p.ai_controlled);
    assert_eq!(p.movement_range, 3);
    assert_eq!(p.health.get_current_value(), 12);
    assert_eq!(p.abilities.len(), 2);
    let copy = p.clone();
    assert_eq!(copy.index, 4);
    assert_eq!(copy.abilities.len(), 2);
    assert_eq!(copy.health, p.health);
}

#[test]
fn action_new_keeps_its_parts() {
    let a = Action::new(ActionType::Ability, 2, 5, Some(Ability::new()));
    assert_eq!(a.action_type, ActionType::Ability);
    assert_eq!(a.start, 2);
    assert_eq!(a.end, 5);
    assert_eq!(a.ability, Some(Ability::new()));
    let m = Action::new(ActionType::Move, 1, 0, None);
    assert_eq!(m, Action { action_type: ActionType::Move, start: 1, end: 0, ability: None });
}

#[test]
fn board_new_rejects_a_list_of_the_wrong_length() {
    let geometry = line(3);
    assert_eq!(
        Board::new(vec![empty(), empty()], &geometry).err(),
        Some(CombatError::ConfigurationError)
    );
    assert_eq!(
        Board::new(vec![empty(), empty(), empty(), empty()], &geometry).err(),
        Some(CombatError::ConfigurationError)
    );
    assert!(Board::new(vec![empty(), empty(), empty()], &geometry).is_ok());
}

#[test]
fn board_new_derives_bitmaps_and_faction_lists() {
    let geometry = line(5);
    let board = board_of(
        &geometry,
        vec![
            piece(true, false, true, false, 1, 5),
            wall(),
            piece(false, true, false, true, 1, 5),
            piece(true, true, false, false, 1, 5),
            empty(),
        ],
    );
    assert_eq!(board.size(), 5);
    assert_eq!(board.player_cells(), &vec![0, 3]);
    assert_eq!(board.ai_cells(), &vec![2]);
    let moves: Vec<bool> = (0..5).map(|c| board.blocks_movement(c)).collect();
    let sight: Vec<bool> = (0..5).map(|c| board.blocks_los(c)).collect();
    assert_eq!(moves, vec![true, true, false, false, false]);
    assert_eq!(sight, vec![false, true, true, false, false]);
    for c in 0..5 {
        assert_eq!(board.piece(c).index, c);
    }
}

#[test]
fn switch_pieces_exchanges_occupants_and_bitmaps() {
    let geometry = line(3);
    let mut board = board_of(&geometry, vec![piece(false, true, true, false, 2, 10), empty(), wall()]);
    board.switch_pieces(0, 2);
    assert_eq!(board.piece(2).health.get_current_value(), 10);
    assert!(board.piece(2).ai_controlled);
    assert_eq!(board.piece(2).index, 2);
    assert_eq!(board.piece(0).index, 0);
    assert!(board.piece(0).blocks_los);
    assert!(board.blocks_movement(0) && board.blocks_movement(2));
    assert!(board.blocks_los(0) && !board.blocks_los(2));
    assert_eq!(board.ai_cells(), &vec![0]);
}

#[test]
fn switch_pieces_twice_restores_the_board() {
    let geometry = line(4);
    let mut board = board_of(
        &geometry,
        vec![piece(false, true, true, false, 2, 10), empty(), wall(), piece(true, false, false, true, 1, 4)],
    );
    let before = board.duplicate();
    board.switch_pieces(0, 3);
    board.switch_pieces(0, 3);
    for c in 0..4 {
        let (p, q) = (board.piece(c), before.piece(c));
        assert_eq!(p.index, q.index);
        assert_eq!(p.blocks_movement, q.blocks_movement);
        assert_eq!(p.blocks_los, q.blocks_los);
        assert_eq!(p.player_controlled, q.player_controlled);
        assert_eq!(p.ai_controlled, q.ai_controlled);
        assert_eq!(p.movement_range, q.movement_range);
        assert_eq!(p.health, q.health);
        assert_eq!(p.abilities, q.abilities);
        assert_eq!(board.blocks_movement(c), before.blocks_movement(c));
        assert_eq!(board.blocks_los(c), before.blocks_los(c));
    }
    assert_eq!(board.player_cells(), before.player_cells());
    assert_eq!(board.ai_cells(), before.ai_cells());
}

#[test]
fn switch_pieces_with_itself_changes_nothing() {
    let geometry = line(2);
    let mut board = board_of(&geometry, vec![wall(), empty()]);
    board.switch_pieces(0, 0);
    assert!(board.blocks_movement(0));
    assert!(!board.blocks_movement(1));
    assert_eq!(board.piece(0).index, 0);
}

#[test]
fn line_of_sight_is_blocked_by_a_piece_on_the_line() {
    let geometry = line(3);
    let blocked = board_of(
        &geometry,
        vec![piece(false, true, false, false, 1, 5), wall(), piece(true, false, false, false, 1, 5)],
    );
    assert!(!blocked.calculate_los(&geometry, 0, 2));
    assert!(!blocked.calculate_los(&geometry, 2, 0));
    let open = board_of(
        &geometry,
        vec![piece(false, true, false, false, 1, 5), empty(), piece(true, false, false, false, 1, 5)],
    );
    assert!(open.calculate_los(&geometry, 0, 2));
    assert!(open.calculate_los(&geometry, 2, 0));
}

#[test]
fn line_of_sight_ignores_blockers_at_its_ends() {
    let geometry = line(3);
    let board = board_of(&geometry, vec![wall(), empty(), wall()]);
    assert!(board.calculate_los(&geometry, 0, 2));
    assert!(board.calculate_los(&geometry, 0, 1));
}

#[test]
fn line_of_sight_needs_a_straight_line() {
    let geometry = grid(3, 3);
    let board = board_of(&geometry, (0..9).map(|_| empty()).collect());
    assert!(board.calculate_los(&geometry, 0, 8));
    assert!(board.calculate_los(&geometry, 0, 2));
    assert!(!board.calculate_los(&geometry, 0, 5));
    assert!(!board.calculate_los(&geometry, 1, 6));
}

#[test]
fn line_of_sight_never_reaches_the_same_cell() {
    let geometry = grid(3, 3);
    let board = board_of(&geometry, (0..9).map(|c| if c == 4 { wall() } else { empty() }).collect());
    for a in 0..9 {
        assert!(!board.calculate_los(&geometry, a, a));
    }
}

#[test]
fn line_of_sight_is_symmetric() {
    let geometry = grid(4, 3);
    let board = board_of(
        &geometry,
        (0..12).map(|c| if c == 5 || c == 10 { wall() } else { empty() }).collect(),
    );
    for a in 0..12 {
        for b in 0..12 {
            assert_eq!(board.calculate_los(&geometry, a, b), board.calculate_los(&geometry, b, a));
        }
    }
}

#[test]
fn range_with_a_blocked_neighbour_holds_only_the_origin() {
    let geometry = line(2);
    let board = board_of(&geometry, vec![piece(false, true, false, false, 1, 5), wall()]);
    assert_eq!(board.calculate_range(&geometry, 0, 1, false, true), vec![0]);
    assert_eq!(board.calculate_range(&geometry, 0, 1, false, false), Vec::<usize>::new());
}

#[test]
fn range_zero_holds_at_most_the_origin() {
    let geometry = grid(3, 3);
    let board = board_of(&geometry, (0..9).map(|_| empty()).collect());
    assert_eq!(board.calculate_range(&geometry, 4, 0, false, false), Vec::<usize>::new());
    assert_eq!(board.calculate_range(&geometry, 4, 0, false, true), vec![4]);
    assert_eq!(board.calculate_range(&geometry, 4, 0, true, true), vec![4]);
}

#[test]
fn movement_range_counts_steps_around_blockers() {
    let geometry = grid(3, 3);
    // 0 1 2
    // 3 4 5      walls on 1 and 4, walker on 0
    // 6 7 8
    let board = board_of(
        &geometry,
        (0..9)
            .map(|c| match c {
                0 => piece(false, true, true, true, 3, 5),
                1 | 4 => wall(),
                _ => empty(),
            })
            .collect(),
    );
    assert_eq!(board.calculate_range(&geometry, 0, 1, false, false), vec![3]);
    assert_eq!(board.calculate_range(&geometry, 0, 2, false, false), vec![3, 6]);
    assert_eq!(board.calculate_range(&geometry, 0, 3, false, false), vec![3, 6, 7]);
    assert_eq!(board.calculate_range(&geometry, 0, 4, false, false), vec![3, 6, 7, 8]);
    assert_eq!(board.calculate_range(&geometry, 0, 5, false, false), vec![3, 5, 6, 7, 8]);
    assert_eq!(board.calculate_range(&geometry, 0, 6, false, false), vec![2, 3, 5, 6, 7, 8]);
    assert_eq!(board.calculate_range(&geometry, 0, 255, false, false), vec![2, 3, 5, 6, 7, 8]);
    assert_eq!(board.calculate_range(&geometry, 0, 255, false, true), vec![0, 2, 3, 5, 6, 7, 8]);
}

#[test]
fn movement_range_never_returns_to_the_origin() {
    let geometry = grid(3, 3);
    let board = board_of(&geometry, (0..9).map(|_| empty()).collect());
    assert_eq!(board.calculate_range(&geometry, 4, 2, false, false), vec![0, 1, 2, 3, 5, 6, 7, 8]);
    assert_eq!(board.calculate_range(&geometry, 0, 1, false, false), vec![1, 3]);
}

#[test]
fn targeting_range_stops_at_cells_that_block_sight() {
    let geometry = line(5);
    // archer on 0, enemy that blocks sight on 2, open cells behind
    let board = board_of(
        &geometry,
        vec![
            piece(false, true, true, true, 1, 5),
            empty(),
            piece(true, false, true, true, 1, 5),
            empty(),
            empty(),
        ],
    );
    assert_eq!(board.calculate_range(&geometry, 0, 4, true, false), vec![1]);
    assert_eq!(board.calculate_range(&geometry, 0, 4, true, true), vec![0, 1, 2]);
    assert_eq!(board.calculate_range(&geometry, 0, 1, true, true), vec![0, 1]);
}

#[test]
fn targeting_range_leaves_out_unoccupied_blockers() {
    let geometry = line(4);
    let board = board_of(&geometry, vec![piece(false, true, true, true, 1, 5), empty(), wall(), empty()]);
    assert_eq!(board.calculate_range(&geometry, 0, 3, true, true), vec![0, 1]);
    assert_eq!(board.calculate_range(&geometry, 0, 3, true, false), vec![1]);
}

#[test]
fn targeting_range_needs_sight_of_every_cell_it_enters() {
    let geometry = grid(3, 3);
    // from 0 the cells 5 and 7 are on no straight line, and 8 touches only those
    let board = board_of(&geometry, (0..9).map(|_| empty()).collect());
    assert!(board.calculate_los(&geometry, 0, 8));
    assert_eq!(board.calculate_range(&geometry, 0, 4, true, false), vec![1, 2, 3, 4, 6]);
    assert_eq!(board.calculate_range(&geometry, 0, 1, true, false), vec![1, 3]);
}

#[test]
fn targeting_range_passes_occupied_cells_that_do_not_block_sight() {
    let geometry = line(4);
    let board = board_of(
        &geometry,
        vec![
            piece(false, true, true, false, 1, 5),
            piece(true, false, true, false, 1, 5),
            empty(),
            empty(),
        ],
    );
    assert_eq!(board.calculate_range(&geometry, 0, 2, true, false), vec![1, 2]);
}

#[test]
fn range_grows_with_the_range() {
    let geometry = grid(4, 4);
    let board = board_of(
        &geometry,
        (0..16)
            .map(|c| match c {
                5 | 6 | 9 => wall(),
                10 => piece(true, false, true, true, 1, 5),
                _ => empty(),
            })
            .collect(),
    );
    for origin in [0usize, 3, 15] {
        for check_los in [false, true] {
            for accept in [false, true] {
                for range in 0u8..8 {
                    let small = board.calculate_range(&geometry, origin, range, check_los, accept);
                    let large = board.calculate_range(&geometry, origin, range + 1, check_los, accept);
                    assert!(small.iter().all(|c| large.contains(c)));
                    assert!(large.windows(2).all(|w| w[0] < w[1]));
                }
            }
        }
    }
}

#[test]
fn valid_moves_lead_to_the_cells_in_range() {
    let geometry = line(4);
    let board = board_of(&geometry, vec![empty(), piece(false, true, true, true, 1, 5), empty(), empty()]);
    let moves = board.piece(1).get_valid_moves(&board, &geometry);
    assert_eq!(
        moves,
        vec![Action::new(ActionType::Move, 1, 0, None), Action::new(ActionType::Move, 1, 2, None)]
    );
    let boxed_in = board_of(&geometry, vec![wall(), piece(false, true, true, true, 3, 5), wall(), empty()]);
    assert_eq!(boxed_in.piece(1).get_valid_moves(&boxed_in, &geometry), Vec::<Action>::new());
}

#[test]
fn ability_offers_nothing() {
    let geometry = line(2);
    let board = board_of(&geometry, vec![piece(false, true, true, true, 1, 5), empty()]);
    assert_eq!(Ability::new().get_valid_actions(0, &board), Vec::<Action>::new());
}
