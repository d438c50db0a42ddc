use mazes::a_star;
use mazes::Block;
use mazes::BlockType;
use mazes::Grid;
use mazes::SearchError;

/// Builds a grid from rows of terrain categories, with each block carrying the
/// coordinates of its position.
fn grid_of(rows: Vec<Vec<BlockType>>) -> Grid {
    let mut blocks = Vec::new();
    for (y, row) in rows.into_iter().enumerate() {
        let mut out = Vec::new();
        for (x, t) in row.into_iter().enumerate() {
            out.push(Block::new(x, y, t));
        }
        blocks.push(out);
    }
    Grid::new(blocks)
}

fn uniform(t: BlockType, width: usize, height: usize) -> Grid {
    grid_of(vec![vec![t; width]; height])
}

#[test]
fn block_speeds_follow_the_cost_table() {
    assert_eq!(Block::new(0, 0, BlockType::Green).speed(), 1);
    assert_eq!(Block::new(0, 0, BlockType::Blue).speed(), 2);
    assert_eq!(Block::new(0, 0, BlockType::Orange).speed(), 5);
    assert_eq!(Block::new(0, 0, BlockType::Yellow).speed(), 7);
    assert_eq!(Block::new(0, 0, BlockType::Black).speed(), usize::MAX);
    assert_eq!(Block::new(0, 0, BlockType::White).speed(), usize::MAX);
}

#[test]
fn walkability_follows_the_category() {
    assert!(Block::new(0, 0, BlockType::Green).is_walkable());
    assert!(Block::new(0, 0, BlockType::Yellow).is_walkable());
    assert!(!Block::new(0, 0, BlockType::Black).is_walkable());
    assert!(!Block::new(0, 0, BlockType::White).is_walkable());
}

#[test]
fn get_block_is_bounds_checked() {
    let grid = uniform(BlockType::Green, 3, 2);
    assert_eq!(grid.width(), 3);
    assert_eq!(grid.height(), 2);
    assert!(grid.get_block(2, 1).is_some());
    assert!(grid.get_block(3, 1).is_none());
    assert!(grid.get_block(2, 2).is_none());
}

#[test]
fn neighbors_are_symmetric_inside_the_grid() {
    let grid = uniform(BlockType::Green, 3, 3);
    for y in 0..3usize {
        for x in 0..3usize {
            for b in grid.get_reachable(x, y) {
                let back = grid.get_reachable(b.x, b.y);
                assert!(back.contains(&grid.get_block(x, y).unwrap()));
            }
        }
    }
}

#[test]
fn corners_and_edges_are_truncated() {
    let grid = uniform(BlockType::Green, 3, 3);
    assert_eq!(grid.get_reachable(0, 0).len(), 2);
    assert_eq!(grid.get_reachable(2, 2).len(), 2);
    assert_eq!(grid.get_reachable(1, 0).len(), 3);
    assert_eq!(grid.get_reachable(1, 1).len(), 4);
}

#[test]
fn unwalkable_neighbors_are_filtered() {
    let g = BlockType::Green;
    let b = BlockType::Black;
    let grid = grid_of(vec![vec![g, b, g], vec![g, g, g]]);
    let reachable = grid.get_reachable(0, 0);
    assert_eq!(reachable.len(), 1);
    assert_eq!((reachable[0].x, reachable[0].y), (0, 1));
}

#[test]
fn uniform_grid_path_has_manhattan_cost() {
    let grid = uniform(BlockType::Green, 3, 3);
    let start = grid.get_block(0, 0).unwrap();
    let dest = grid.get_block(2, 2).unwrap();
    let solution = a_star(&grid, start, dest).unwrap();
    assert_eq!(solution.cost, 4);
    assert_eq!(solution.states.len(), 5);
    assert_eq!(solution.states[0].location, start);
    assert_eq!(solution.states[4].location, dest);
}

#[test]
fn search_routes_through_the_cheap_lane() {
    let g = BlockType::Green;
    let y = BlockType::Yellow;
    let grid = grid_of(vec![vec![g, y, g], vec![g, g, g]]);
    let start = grid.get_block(0, 0).unwrap();
    let dest = grid.get_block(2, 0).unwrap();
    let solution = a_star(&grid, start, dest).unwrap();
    // around through the bottom row: four steps of cost one beat the
    // geometrically direct walk over the cost-seven block
    assert_eq!(solution.cost, 4);
    assert!(solution.states.iter().all(|s| !(s.location.x == 1 && s.location.y == 0)));
}

#[test]
fn walled_off_destination_is_not_found() {
    let g = BlockType::Green;
    let b = BlockType::Black;
    let grid = grid_of(vec![
        vec![g, b, g],
        vec![g, b, g],
        vec![g, b, g],
    ]);
    let start = grid.get_block(0, 0).unwrap();
    let dest = grid.get_block(2, 2).unwrap();
    assert_eq!(a_star(&grid, start, dest).unwrap_err(), SearchError::NotFound);
}

#[test]
fn repeated_searches_agree_on_the_cost() {
    let g = BlockType::Green;
    let o = BlockType::Orange;
    let grid = grid_of(vec![vec![g, o, g], vec![o, g, o], vec![g, o, g]]);
    let start = grid.get_block(0, 0).unwrap();
    let dest = grid.get_block(2, 2).unwrap();
    let first = a_star(&grid, start, dest).unwrap().cost;
    for _ in 0..5 {
        let again = a_star(&grid, start, dest).unwrap().cost;
        assert_eq!(again, first);
    }
}

#[test]
fn start_equal_to_destination_is_trivial() {
    let grid = uniform(BlockType::Green, 2, 2);
    let start = grid.get_block(1, 1).unwrap();
    let solution = a_star(&grid, start, start).unwrap();
    assert_eq!(solution.cost, 0);
    assert_eq!(solution.states.len(), 1);
    assert_eq!(solution.states[0].location, start);
}

#[test]
fn unwalkable_destination_is_not_found() {
    let g = BlockType::Green;
    let b = BlockType::Black;
    let grid = grid_of(vec![vec![g, b], vec![g, g]]);
    let start = grid.get_block(0, 0).unwrap();
    let dest = grid.get_block(1, 0).unwrap();
    assert_eq!(a_star(&grid, start, dest).unwrap_err(), SearchError::NotFound);
}

#[test]
fn solution_map_has_the_walk_stamped_in() {
    let grid = uniform(BlockType::Green, 3, 1);
    let start = grid.get_block(0, 0).unwrap();
    let dest = grid.get_block(2, 0).unwrap();
    let solution = a_star(&grid, start, dest).unwrap();
    assert_eq!(solution.cost, 2);
    let stamped = solution.to_solution_map();
    for x in 0..3 {
        assert_eq!(stamped.get_block(x, 0).unwrap().block_type, BlockType::Solution);
    }
    // the source grid is untouched
    assert_eq!(grid.get_block(1, 0).unwrap().block_type, BlockType::Green);
}

#[test]
fn cheaper_reroute_reopens_a_position() {
    // the direct corridor to the destination is expensive; the search first
    // reaches the middle block at a high cost and must replace that entry
    // when the cheap detour arrives
    let g = BlockType::Green;
    let y = BlockType::Yellow;
    let o = BlockType::Orange;
    let grid = grid_of(vec![
        vec![g, y, o],
        vec![g, g, g],
    ]);
    let start = grid.get_block(0, 0).unwrap();
    let dest = grid.get_block(2, 0).unwrap();
    let solution = a_star(&grid, start, dest).unwrap();
    // down, across, and back up: 1 + 1 + 1 + 5 beats 7 + 5
    assert_eq!(solution.cost, 8);
}

#[test]
fn rendering_paints_the_highlighted_step() {
    let grid = uniform(BlockType::Green, 2, 1);
    let start = grid.get_block(0, 0).unwrap();
    let dest = grid.get_block(1, 0).unwrap();
    let solution = a_star(&grid, start, dest).unwrap();
    let frames = solution.as_sequence_of_maps(&grid);
    assert_eq!(frames.len(), 2);
    assert_eq!(frames[0], "🤖🟩\n");
    assert_eq!(frames[1], "🟩🤖\n");
    assert_eq!(solution.states[0].display_on_map(&grid), "🤖🟩\n");
    assert_eq!(grid.to_string_with_locations(&Vec::new()), "🟩🟩\n");
}

#[test]
fn stamping_is_keyed_on_coordinates() {
    // a listed location retags the block at its coordinates even when the
    // listed terrain category differs from the stored one
    let mut grid = uniform(BlockType::Green, 2, 1);
    let locations = vec![Block::new(0, 0, BlockType::Yellow)];
    grid.enter_solution(&locations);
    assert_eq!(grid.get_block(0, 0).unwrap().block_type, BlockType::Solution);
    assert_eq!(grid.get_block(1, 0).unwrap().block_type, BlockType::Green);
}
