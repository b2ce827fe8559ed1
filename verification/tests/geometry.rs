use gridpath::agent::Agent;
use gridpath::cell::Cell;
use gridpath::grid::{Grid, GridVec};
use gridpath::trig::{direction_of, isqrt64, sin_cos_fp};

#[test]
fn test_small_agent_footprint() {
    // Half-extents of a quarter cell: the agent covers only its own cell.
    let agent = Agent::new(GridVec::new(0, 0), 500, 500, 0, 8);
    let footprint = agent.rotation_footprint(0);
    assert_eq!(footprint.as_slice(), &[GridVec::new(0, 0)]);
}

#[test]
fn test_three_quarter_agent_footprint() {
    // Half-extents of three quarters of a cell, centred on the cell
    // (0, 0): the body spills over into the three neighbours that share
    // its centre corner.
    let agent = Agent::new(GridVec::new(0, 0), 1500, 1500, 0, 8);
    let footprint = agent.rotation_footprint(0);
    assert_eq!(
        footprint.as_slice(),
        &[
            GridVec::new(0, 0),
            GridVec::new(0, 1),
            GridVec::new(1, 0),
            GridVec::new(1, 1),
        ]
    );
}

#[test]
fn test_tiny_agent_covers_one_cell_at_every_heading() {
    let agent = Agent::new(GridVec::new(0, 0), 10, 10, 0, 8);
    for h in 0..8 {
        let footprint = agent.rotation_footprint(h);
        assert_eq!(footprint.as_slice(), &[GridVec::new(0, 0)]);
    }
}

#[test]
fn test_footprint_translation() {
    let agent = Agent::new(GridVec::new(0, 0), 1500, 1500, 0, 8);
    let translated = agent.footprint(GridVec::new(10, 20), 0);
    assert_eq!(
        translated.as_slice(),
        &[
            GridVec::new(10, 20),
            GridVec::new(10, 21),
            GridVec::new(11, 20),
            GridVec::new(11, 21),
        ]
    );
    let mut agent = agent;
    agent.position = GridVec::new(10, 20);
    assert_eq!(agent.current_footprint(), translated);
}

#[test]
fn test_wide_footprint_blocks_path() {
    // A corridor one cell wide cannot be passed by a three-cell-wide
    // agent, while the tiny agent walks straight through.
    let mut grid = Grid::new(20, 7);
    for y in 0..7 {
        if y != 3 {
            grid.toggle_cell(10, y);
        }
    }
    let cache = gridpath::cell::NeighborCache::new_precomputed(8, 1);
    let model = gridpath::cell::CostModel::new();
    let small = Agent::new(GridVec::new(0, 0), 10, 10, 0, 8);
    let wide = Agent::new(GridVec::new(0, 0), 2500, 2500, 0, 8);
    let through_small = gridpath::pathfind::find_path(
        &grid,
        &small,
        &cache,
        &model,
        GridVec::new(2, 3),
        0,
        GridVec::new(18, 3),
    );
    assert!(through_small.is_some());
    let through_wide = gridpath::pathfind::find_path(
        &grid,
        &wide,
        &cache,
        &model,
        GridVec::new(2, 3),
        0,
        GridVec::new(18, 3),
    );
    assert!(through_wide.is_none());
}

#[test]
fn test_grid_bounds_and_toggle() {
    let mut grid = Grid::new(4, 3);
    assert_eq!(grid.width(), 4);
    assert_eq!(grid.height(), 3);
    // Out-of-range coordinates always read as blocked.
    assert!(grid.is_cell_blocked(-1, 0));
    assert!(grid.is_cell_blocked(0, -1));
    assert!(grid.is_cell_blocked(4, 0));
    assert!(grid.is_cell_blocked(0, 3));
    // In-range cells start free and toggle back and forth.
    assert!(!grid.is_cell_blocked(2, 1));
    grid.toggle_cell(2, 1);
    assert!(grid.is_cell_blocked(2, 1));
    assert!(!grid.is_cell_blocked(1, 2));
    grid.toggle_cell(2, 1);
    assert!(!grid.is_cell_blocked(2, 1));
}

#[test]
fn test_grid_index_round_trip() {
    let grid = Grid::new(7, 5);
    let i = grid.index(3, 4);
    assert_eq!(i, 31);
    assert_eq!(grid.xy(31), (3, 4));
}

#[test]
fn test_sin_cos_axes_exact() {
    assert_eq!(sin_cos_fp(0, 8), (0, 65536));
    assert_eq!(sin_cos_fp(2, 8), (65536, 0));
    assert_eq!(sin_cos_fp(4, 8), (0, -65536));
    assert_eq!(sin_cos_fp(6, 8), (-65536, 0));
}

#[test]
fn test_sin_cos_diagonal() {
    // At an eighth of a turn the sine and cosine agree and sit at the
    // fixed-point rounding of sqrt(2)/2.
    let (s, c) = sin_cos_fp(1, 8);
    assert_eq!(s, c);
    assert_eq!(s, 46341);
}

#[test]
fn test_direction_of_eight_headings() {
    let expected = [
        (1, 0),
        (1, 1),
        (0, 1),
        (-1, 1),
        (-1, 0),
        (-1, -1),
        (0, -1),
        (1, -1),
    ];
    for (r, want) in expected.iter().enumerate() {
        assert_eq!(direction_of(r as u16, 8), *want);
    }
    // A third of a quarter turn still rounds to the diagonal, with the
    // half-way cosine rounding away from zero.
    assert_eq!(direction_of(2, 12), (1, 1));
}

#[test]
fn test_isqrt() {
    assert_eq!(isqrt64(0), 0);
    assert_eq!(isqrt64(15), 3);
    assert_eq!(isqrt64(16), 4);
    assert_eq!(isqrt64(1975517184), 44446);
    assert_eq!(isqrt64(u64::MAX), 4294967295);
}

#[test]
fn test_rotation_helpers() {
    assert_eq!(Cell::clamp_rotation(-1, 8), 7);
    assert_eq!(Cell::clamp_rotation(8, 8), 0);
    assert_eq!(Cell::clamp_rotation(5, 8), 5);
    assert_eq!(Cell::opposite_rotation(0, 8), 4);
    assert_eq!(Cell::opposite_rotation(6, 8), 2);
    let pose = Cell::new(1, GridVec::new(0, 0));
    assert_eq!(pose.rotation_to(7, 8), 2);
    assert_eq!(pose.rotation_to(5, 8), 4);
    assert_eq!(pose.rotation_to(1, 8), 0);
}

#[test]
fn test_precompute_neighbor() {
    let forward = Cell::precompute_neighbor(1, false, 8);
    assert_eq!(forward.position, GridVec::new(1, 1));
    assert_eq!(forward.rotation, 1);
    assert!(!forward.reverse);
    let reverse = Cell::precompute_neighbor(1, true, 8);
    assert_eq!(reverse.position, GridVec::new(1, 1));
    assert_eq!(reverse.rotation, 5);
    assert!(reverse.reverse);
}

#[test]
fn test_neighbors_translate() {
    let cache = gridpath::cell::NeighborCache::new_precomputed(8, 1);
    let pose = Cell::new(0, GridVec::new(10, 10));
    let neighbors = pose.neighbors(&cache);
    let templates = cache.get(0).unwrap();
    assert_eq!(neighbors.len(), templates.len());
    for (n, t) in neighbors.iter().zip(templates.iter()) {
        assert_eq!(n.position.x, 10 + t.offset.x);
        assert_eq!(n.position.y, 10 + t.offset.y);
        assert_eq!(n.rotation, t.rotation);
        assert_eq!(n.reverse, t.reverse);
    }
}
