use mcts_rust::{CombatError, Geometry, Vec2};

fn line_tables(n: usize) -> (Vec<Vec<usize>>, Vec<Vec<Option<Vec<usize>>>>) {
    let mut neighbors = Vec::new();
    let mut lines = Vec::new();
    for a in 0..n {
        let mut near = Vec::new();
        if a > 0 {
            near.push(a - 1);
        }
        if a + 1 < n {
            near.push(a + 1);
        }
        neighbors.push(near);
        let mut row = Vec::new();
        for b in 0..n {
            if a == b {
                row.push(None);
            } else if a < b {
                row.push(Some((a + 1..b).collect()));
            } else {
                row.push(Some((b + 1..a).rev().collect()));
            }
        }
        lines.push(row);
    }
    (neighbors, lines)
}

#[test]
fn vec2_adds_and_subtracts_by_component() {
    let a = Vec2::new(3, 4);
    let b = Vec2::new(1, 2);
    let sum = a + b;
    assert_eq!(sum.x(), 4);
    assert_eq!(sum.y(), 6);
    let diff = a - b;
    assert_eq!(diff.x(), 2);
    assert_eq!(diff.y(), 2);
    assert_eq!(a + b, Vec2::new(4, 6));
    assert_eq!((a + b) - b, a);
}

#[test]
fn vec2_reaches_the_edge_of_its_range() {
    let sum = Vec2::new(200, 0) + Vec2::new(55, 255);
    assert_eq!(sum, Vec2::new(255, 255));
    let diff = Vec2::new(7, 9) - Vec2::new(7, 9);
    assert_eq!(diff, Vec2::new(0, 0));
}

#[test]
fn geometry_accepts_a_consistent_line() {
    let (neighbors, lines) = line_tables(5);
    let geometry = Geometry::new(neighbors, lines).unwrap();
    assert_eq!(geometry.size(), 5);
    assert_eq!(geometry.neighbors(0), &vec![1]);
    assert_eq!(geometry.neighbors(2), &vec![1, 3]);
    assert_eq!(geometry.los_line(0, 3), Some(&vec![1, 2]));
    assert_eq!(geometry.los_line(3, 0), Some(&vec![2, 1]));
    assert_eq!(geometry.los_line(1, 2), Some(&vec![]));
    assert_eq!(geometry.los_line(4, 4), None);
}

#[test]
fn geometry_accepts_the_empty_grid() {
    let geometry = Geometry::new(Vec::new(), Vec::new()).unwrap();
    assert_eq!(geometry.size(), 0);
}

#[test]
fn geometry_rejects_tables_of_different_length() {
    let (neighbors, mut lines) = line_tables(3);
    lines.pop();
    assert_eq!(Geometry::new(neighbors, lines).err(), Some(CombatError::ConfigurationError));
}

#[test]
fn geometry_rejects_a_short_line_row() {
    let (neighbors, mut lines) = line_tables(3);
    lines[1].pop();
    assert_eq!(Geometry::new(neighbors, lines).err(), Some(CombatError::ConfigurationError));
}

#[test]
fn geometry_rejects_a_neighbour_off_the_grid() {
    let (mut neighbors, lines) = line_tables(3);
    neighbors[2].push(3);
    assert_eq!(Geometry::new(neighbors, lines).err(), Some(CombatError::ConfigurationError));
}

#[test]
fn geometry_rejects_a_line_to_the_same_cell() {
    let (neighbors, mut lines) = line_tables(3);
    lines[1][1] = Some(Vec::new());
    assert_eq!(Geometry::new(neighbors, lines).err(), Some(CombatError::ConfigurationError));
}

#[test]
fn geometry_rejects_a_line_through_a_cell_off_the_grid() {
    let (neighbors, mut lines) = line_tables(3);
    lines[0][2] = Some(vec![1, 7]);
    lines[2][0] = Some(vec![1, 7]);
    assert_eq!(Geometry::new(neighbors, lines).err(), Some(CombatError::ConfigurationError));
}

#[test]
fn geometry_rejects_a_line_without_mirror() {
    let (neighbors, mut lines) = line_tables(3);
    lines[2][0] = None;
    assert_eq!(Geometry::new(neighbors, lines).err(), Some(CombatError::ConfigurationError));
}

#[test]
fn geometry_rejects_mirrored_lines_through_different_cells() {
    let (neighbors, mut lines) = line_tables(4);
    lines[0][3] = Some(vec![1]);
    assert_eq!(Geometry::new(neighbors, lines).err(), Some(CombatError::ConfigurationError));
    let (neighbors, mut lines) = line_tables(4);
    lines[3][0] = Some(vec![2, 1, 2]);
    assert!(Geometry::new(neighbors, lines).is_ok());
}
