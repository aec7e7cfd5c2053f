//! Behavioural tests for both search engines over fixed and random terrain.
use astar_grid::hash;
use astar_grid::index;

fn hash_engine(w: i64, h: i64, costs: Vec<i64>, sx: i64, sy: i64, ex: i64, ey: i64) -> hash::AStar {
    hash::AStar::with_costs(
        hash::Size::new(w, h),
        costs,
        hash::Node::new(sx, sy),
        hash::Node::new(ex, ey),
    )
}

fn index_engine(
    w: i64,
    h: i64,
    costs: Vec<i64>,
    sx: i64,
    sy: i64,
    ex: i64,
    ey: i64,
) -> index::AStar {
    index::AStar::with_costs(
        index::Size::new(w, h),
        costs,
        index::Node::new(sx, sy),
        index::Node::new(ex, ey),
    )
}

#[test]
fn single_cell_grid_hash() {
    let engine = hash_engine(1, 1, vec![7], 0, 0, 0, 0);
    let path = engine.calc().expect("a 1x1 grid always has a path");
    assert_eq!(path, vec![hash::Node::new(0, 0)]);
}

#[test]
fn single_cell_grid_index() {
    let engine = index_engine(1, 1, vec![7], 0, 0, 0, 0);
    let path = engine.calc().expect("a 1x1 grid always has a path");
    assert_eq!(path, vec![index::Node::new(0, 0)]);
}

#[test]
fn equal_start_and_goal_is_single_element() {
    let costs: Vec<i64> = vec![3, 1, 4, 1, 5, 9, 2, 6, 5];
    let engine = hash_engine(3, 3, costs.clone(), 1, 2, 1, 2);
    let path = engine.calc().expect("start equals goal");
    assert_eq!(path.len(), 1);
    assert_eq!(path[0], hash::Node::new(1, 2));
    let engine = index_engine(3, 3, costs, 1, 2, 1, 2);
    let path = engine.calc().expect("start equals goal");
    assert_eq!(path, vec![index::Node::new(1, 2)]);
}

#[test]
fn diagonal_neighbor_two_by_two() {
    let engine = hash_engine(2, 2, vec![0, 0, 0, 0], 0, 0, 1, 1);
    let path = engine.calc().expect("2x2 grid is connected");
    assert_eq!(path, vec![hash::Node::new(1, 1), hash::Node::new(0, 0)]);
    let engine = index_engine(2, 2, vec![0, 0, 0, 0], 0, 0, 1, 1);
    let path = engine.calc().expect("2x2 grid is connected");
    assert_eq!(path, vec![index::Node::new(1, 1), index::Node::new(0, 0)]);
}

#[test]
fn straight_line_three_by_one() {
    let engine = hash_engine(3, 1, vec![0, 0, 0], 0, 0, 2, 0);
    let path = engine.calc().expect("3x1 grid is connected");
    assert_eq!(
        path,
        vec![hash::Node::new(2, 0), hash::Node::new(1, 0), hash::Node::new(0, 0)]
    );
    let engine = index_engine(3, 1, vec![0, 0, 0], 0, 0, 2, 0);
    let path = engine.calc().expect("3x1 grid is connected");
    assert_eq!(
        path,
        vec![index::Node::new(2, 0), index::Node::new(1, 0), index::Node::new(0, 0)]
    );
}

#[test]
fn tall_grid_one_by_four() {
    let engine = index_engine(1, 4, vec![10, 20, 30, 40], 0, 0, 0, 3);
    let path = engine.calc().expect("1x4 grid is connected");
    assert_eq!(path.len(), 4);
    assert_eq!(path[0], index::Node::new(0, 3));
    assert_eq!(path[3], index::Node::new(0, 0));
}

#[test]
fn random_terrain_always_finds_a_path_hash() {
    let engine = hash::AStar::new(
        hash::Size::new(4, 4),
        hash::Node::new(0, 0),
        hash::Node::new(3, 3),
    );
    assert!(engine.calc().is_some());
}

#[test]
fn random_terrain_always_finds_a_path_index() {
    let engine = index::AStar::new(
        index::Size::new(4, 4),
        index::Node::new(0, 0),
        index::Node::new(3, 3),
    );
    assert!(engine.calc().is_some());
}

#[test]
fn path_runs_from_goal_to_start_over_random_terrain() {
    let engine = hash::AStar::new(
        hash::Size::new(6, 6),
        hash::Node::new(1, 2),
        hash::Node::new(5, 0),
    );
    let path = engine.calc().expect("grid is connected");
    assert!(path.len() >= 1);
    assert_eq!(path[0], hash::Node::new(5, 0));
    assert_eq!(path[path.len() - 1], hash::Node::new(1, 2));
}

#[test]
fn consecutive_path_cells_are_moore_adjacent() {
    let engine = index::AStar::new(
        index::Size::new(6, 6),
        index::Node::new(0, 5),
        index::Node::new(5, 1),
    );
    let path = engine.calc().expect("grid is connected");
    for i in 1..path.len() {
        let dx = (path[i].x() - path[i - 1].x()).abs();
        let dy = (path[i].y() - path[i - 1].y()).abs();
        assert!(dx <= 1 && dy <= 1);
        assert!(dx + dy >= 1);
    }
}

#[test]
fn repeated_runs_on_one_engine_are_identical() {
    let costs: Vec<i64> = (0..16).map(|i| (i * 37) % 100).collect();
    let engine = hash_engine(4, 4, costs, 0, 0, 3, 3);
    let first = engine.calc().expect("grid is connected");
    let second = engine.calc().expect("grid is connected");
    assert_eq!(first, second);
}

#[test]
fn equal_cost_tables_give_identical_paths() {
    let costs: Vec<i64> = vec![5, 0, 80, 3, 99, 2, 41, 7, 0, 11, 60, 12, 9, 9, 9, 1];
    let a = index_engine(4, 4, costs.clone(), 0, 0, 3, 3);
    let b = index_engine(4, 4, costs, 0, 0, 3, 3);
    assert_eq!(a.calc().expect("connected"), b.calc().expect("connected"));
}

fn assert_same_path(hash_path: &[hash::Node], index_path: &[index::Node]) {
    assert_eq!(hash_path.len(), index_path.len());
    for i in 0..hash_path.len() {
        assert_eq!(hash_path[i].x(), index_path[i].x());
        assert_eq!(hash_path[i].y(), index_path[i].y());
    }
}

#[test]
fn strategies_agree_on_all_zero_terrain() {
    let costs: Vec<i64> = vec![0; 16];
    let h = hash_engine(4, 4, costs.clone(), 0, 0, 3, 3);
    let i = index_engine(4, 4, costs, 0, 0, 3, 3);
    assert_same_path(&h.calc().expect("connected"), &i.calc().expect("connected"));
}

#[test]
fn strategies_agree_on_checkerboard_terrain() {
    let mut costs: Vec<i64> = Vec::new();
    for y in 0..4 {
        for x in 0..4 {
            costs.push(if (x + y) % 2 == 0 { 0 } else { 50 });
        }
    }
    let h = hash_engine(4, 4, costs.clone(), 0, 0, 3, 3);
    let i = index_engine(4, 4, costs, 0, 0, 3, 3);
    assert_same_path(&h.calc().expect("connected"), &i.calc().expect("connected"));
}

#[test]
fn strategies_agree_on_varied_terrain() {
    let costs: Vec<i64> = (0..25).map(|i| (i * 61 + 13) % 100).collect();
    let h = hash_engine(5, 5, costs.clone(), 4, 0, 0, 4);
    let i = index_engine(5, 5, costs, 4, 0, 0, 4);
    assert_same_path(&h.calc().expect("connected"), &i.calc().expect("connected"));
}

#[test]
fn high_cost_wall_still_crossed() {
    // A wall of maximal cost down the middle column cannot disconnect the
    // grid; the path must still reach the far side.
    let mut costs: Vec<i64> = vec![0; 9];
    costs[1] = 99;
    costs[4] = 99;
    costs[7] = 99;
    let h = hash_engine(3, 3, costs.clone(), 0, 1, 2, 1);
    let path = h.calc().expect("grid is connected despite the wall");
    assert_eq!(path[0], hash::Node::new(2, 1));
    assert_eq!(path[path.len() - 1], hash::Node::new(0, 1));
    let i = index_engine(3, 3, costs, 0, 1, 2, 1);
    assert_same_path(&path, &i.calc().expect("connected"));
}
