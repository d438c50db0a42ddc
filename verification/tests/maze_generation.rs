use mazes::generate_maze;
use mazes::Cell;
use mazes::MazeError;
use mazes::MazeMap;
use mazes::Relation;
use mazes::Wall;

#[test]
fn top_right_corner_has_two_neighbors() {
    let map = MazeMap::new(3, 3);
    assert_eq!(map.get_neighbors(&Cell::new(2, 0)).len(), 2);
}

#[test]
fn bottom_left_corner_has_two_neighbors() {
    let map = MazeMap::new(3, 3);
    assert_eq!(map.get_neighbors(&Cell::new(0, 2)).len(), 2);
}

#[test]
fn middle_left_cell_has_three_neighbors() {
    let map = MazeMap::new(3, 3);
    assert_eq!(map.get_neighbors(&Cell::new(0, 1)).len(), 3);
}

#[test]
fn middle_cell_has_four_neighbors() {
    let map = MazeMap::new(3, 3);
    assert_eq!(map.get_neighbors(&Cell::new(1, 1)).len(), 4);
}

#[test]
fn relation_top_neighbor() {
    let cell_a = Cell::new(1, 1);
    let cell_b = Cell::new(1, 2);
    assert_eq!(cell_a.relation(&cell_b).unwrap(), Relation::Bottom);
}

#[test]
fn relation_right_neighbor() {
    let cell_a = Cell::new(1, 1);
    let cell_b = Cell::new(2, 1);
    assert_eq!(cell_a.relation(&cell_b).unwrap(), Relation::Right);
}

#[test]
fn relation_bottom_neighbor() {
    let cell_a = Cell::new(1, 1);
    let cell_b = Cell::new(1, 0);
    assert_eq!(cell_a.relation(&cell_b).unwrap(), Relation::Top);
}

#[test]
fn relation_left_neighbor() {
    let cell_a = Cell::new(1, 1);
    let cell_b = Cell::new(0, 1);
    assert_eq!(cell_a.relation(&cell_b).unwrap(), Relation::Left);
}

#[test]
fn relation_non_neighbor() {
    let cell_a = Cell::new(1, 1);
    let cell_b = Cell::new(3, 2);
    assert!(cell_a.relation(&cell_b).is_err());
}

#[test]
fn connect_cells_top_neighbor() {
    let mut map = MazeMap::new(3, 3);
    let cell_a = Cell::new(1, 1);
    let cell_b = Cell::new(1, 2);
    map.connect_cells(&cell_a, &cell_b).unwrap();
    assert_eq!(map.get_cell(1, 1).unwrap().top, Wall::Closed);
    assert_eq!(map.get_cell(1, 1).unwrap().bottom, Wall::Open);
    assert_eq!(map.get_cell(1, 2).unwrap().bottom, Wall::Closed);
    assert_eq!(map.get_cell(1, 2).unwrap().top, Wall::Open);
}

#[test]
fn connect_cells_right_neighbor() {
    let mut map = MazeMap::new(3, 3);
    let cell_a = Cell::new(1, 1);
    let cell_b = Cell::new(2, 1);
    map.connect_cells(&cell_a, &cell_b).unwrap();
    assert_eq!(map.get_cell(1, 1).unwrap().right, Wall::Open);
    assert_eq!(map.get_cell(2, 1).unwrap().left, Wall::Open);
}

#[test]
fn connect_cells_bottom_neighbor() {
    let mut map = MazeMap::new(3, 3);
    let cell_a = Cell::new(1, 1);
    let cell_b = Cell::new(1, 0);
    map.connect_cells(&cell_a, &cell_b).unwrap();
    assert_eq!(map.get_cell(1, 1).unwrap().bottom, Wall::Closed);
    assert_eq!(map.get_cell(1, 1).unwrap().top, Wall::Open);
    assert_eq!(map.get_cell(1, 0).unwrap().bottom, Wall::Open);
    assert_eq!(map.get_cell(1, 0).unwrap().top, Wall::Closed);
}

#[test]
fn connect_cells_left_neighbor() {
    let mut map = MazeMap::new(3, 3);
    let cell_a = Cell::new(1, 1);
    let cell_b = Cell::new(0, 1);
    map.connect_cells(&cell_a, &cell_b).unwrap();
    assert_eq!(map.get_cell(1, 1).unwrap().left, Wall::Open);
    assert_eq!(map.get_cell(0, 1).unwrap().right, Wall::Open);
}

/// The number of open internal wall pairs, each counted once through the cell
/// that owns it.
fn open_pair_count(map: &MazeMap) -> usize {
    let mut count = 0;
    for y in 0..map.height {
        for x in 0..map.width {
            let c = map.get_cell(x, y).unwrap();
            if x + 1 < map.width && c.right == Wall::Open {
                count += 1;
            }
            if y + 1 < map.height && c.bottom == Wall::Open {
                count += 1;
            }
        }
    }
    count
}

/// Flood fill through open walls from the origin; returns how many cells are
/// reachable.
fn reachable_cells(map: &MazeMap) -> usize {
    if map.width == 0 || map.height == 0 {
        return 0;
    }
    let mut seen = vec![vec![false; map.width]; map.height];
    let mut stack = vec![(0usize, 0usize)];
    seen[0][0] = true;
    let mut count = 1;
    while let Some((x, y)) = stack.pop() {
        let c = map.get_cell(x, y).unwrap();
        let mut steps: Vec<(usize, usize)> = Vec::new();
        if c.left == Wall::Open && x > 0 {
            steps.push((x - 1, y));
        }
        if c.top == Wall::Open && y > 0 {
            steps.push((x, y - 1));
        }
        if c.right == Wall::Open && x + 1 < map.width {
            steps.push((x + 1, y));
        }
        if c.bottom == Wall::Open && y + 1 < map.height {
            steps.push((x, y + 1));
        }
        for (nx, ny) in steps {
            if !seen[ny][nx] {
                seen[ny][nx] = true;
                count += 1;
                stack.push((nx, ny));
            }
        }
    }
    count
}

/// Every cell's walls agree with each in-map neighbor's walls back.
fn walls_consistent(map: &MazeMap) -> bool {
    for y in 0..map.height {
        for x in 0..map.width {
            let c = map.get_cell(x, y).unwrap();
            if x + 1 < map.width && c.right != map.get_cell(x + 1, y).unwrap().left {
                return false;
            }
            if y + 1 < map.height && c.bottom != map.get_cell(x, y + 1).unwrap().top {
                return false;
            }
        }
    }
    true
}

#[test]
fn maze_without_loops_is_a_spanning_tree() {
    for &(w, h) in &[(1usize, 1usize), (2, 3), (4, 4), (7, 5)] {
        let map = generate_maze(w, h, None).unwrap();
        assert_eq!(map.width, w);
        assert_eq!(map.height, h);
        assert_eq!(open_pair_count(&map), w * h - 1);
        assert_eq!(reachable_cells(&map), w * h);
    }
}

#[test]
fn maze_with_zero_probability_matches_none() {
    let map = generate_maze(5, 5, Some(0)).unwrap();
    assert_eq!(open_pair_count(&map), 24);
    assert_eq!(reachable_cells(&map), 25);
}

#[test]
fn maze_near_full_probability_stays_connected_and_gains_loops() {
    let mut extra_seen = false;
    for _ in 0..20 {
        let map = generate_maze(6, 6, Some(999_999)).unwrap();
        assert_eq!(reachable_cells(&map), 36);
        assert!(open_pair_count(&map) >= 35);
        if open_pair_count(&map) > 35 {
            extra_seen = true;
        }
    }
    assert!(extra_seen);
}

#[test]
fn generated_maze_walls_are_mutually_consistent() {
    let map = generate_maze(8, 6, Some(500_000)).unwrap();
    assert!(walls_consistent(&map));
}

#[test]
fn connect_sequence_keeps_walls_mutually_consistent() {
    let mut map = MazeMap::new(4, 4);
    map.connect_cells(&Cell::new(0, 0), &Cell::new(1, 0)).unwrap();
    map.connect_cells(&Cell::new(1, 0), &Cell::new(1, 1)).unwrap();
    map.connect_cells(&Cell::new(1, 1), &Cell::new(0, 1)).unwrap();
    map.connect_cells(&Cell::new(0, 1), &Cell::new(0, 0)).unwrap();
    map.connect_cells(&Cell::new(2, 2), &Cell::new(2, 3)).unwrap();
    assert!(walls_consistent(&map));
}

#[test]
fn zero_width_is_rejected() {
    assert_eq!(generate_maze(0, 5, None).unwrap_err(), MazeError::InvalidDimensions);
}

#[test]
fn zero_height_is_rejected() {
    assert_eq!(generate_maze(5, 0, None).unwrap_err(), MazeError::InvalidDimensions);
}

#[test]
fn connect_outside_the_map_is_rejected() {
    let mut map = MazeMap::new(2, 2);
    assert_eq!(
        map.connect_cells(&Cell::new(5, 5), &Cell::new(5, 6)).unwrap_err(),
        MazeError::OutOfBounds
    );
}

#[test]
fn connect_non_neighbors_is_rejected() {
    let mut map = MazeMap::new(3, 3);
    assert_eq!(
        map.connect_cells(&Cell::new(0, 0), &Cell::new(2, 2)).unwrap_err(),
        MazeError::InconsistentAdjacency
    );
}

#[test]
fn new_maze_is_fully_closed() {
    let map = MazeMap::new(3, 2);
    for y in 0..2 {
        for x in 0..3 {
            let c = map.get_cell(x, y).unwrap();
            assert_eq!(c.top, Wall::Closed);
            assert_eq!(c.right, Wall::Closed);
            assert_eq!(c.bottom, Wall::Closed);
            assert_eq!(c.left, Wall::Closed);
            assert_eq!(c.x, x);
            assert_eq!(c.y, y);
        }
    }
    assert!(map.get_cell(3, 0).is_none());
    assert!(map.get_cell(0, 2).is_none());
}

#[test]
fn failed_connect_leaves_the_map_unchanged() {
    // the position next to (0,0) lies outside a 1x1 map: the connect fails
    // and no wall opens
    let mut map = MazeMap::new(1, 1);
    assert_eq!(
        map.connect_cells(&Cell::new(0, 0), &Cell::new(1, 0)).unwrap_err(),
        MazeError::OutOfBounds
    );
    let c = map.get_cell(0, 0).unwrap();
    assert_eq!(c.right, Wall::Closed);
    assert_eq!(c.left, Wall::Closed);
    assert_eq!(c.top, Wall::Closed);
    assert_eq!(c.bottom, Wall::Closed);
}

#[test]
fn generated_maze_boundary_walls_stay_closed() {
    let map = generate_maze(5, 4, Some(700_000)).unwrap();
    for y in 0..map.height {
        for x in 0..map.width {
            let c = map.get_cell(x, y).unwrap();
            if x == 0 {
                assert_eq!(c.left, Wall::Closed);
            }
            if x == map.width - 1 {
                assert_eq!(c.right, Wall::Closed);
            }
            if y == 0 {
                assert_eq!(c.top, Wall::Closed);
            }
            if y == map.height - 1 {
                assert_eq!(c.bottom, Wall::Closed);
            }
        }
    }
}
