use gridpath::agent::Agent;
use gridpath::cell::{Cell, CostModel, NeighborCache};
use gridpath::grid::{Grid, GridVec};
use gridpath::pathfind::find_path;

const MAX_INCREMENTS: u16 = 8;
const ARC: u16 = 1;

fn default_state() -> (Grid, Agent, NeighborCache, CostModel) {
    let grid = Grid::new(100, 50);
    let agent = Agent::new(GridVec::new(0, 0), 10, 10, 0, MAX_INCREMENTS);
    let cache = NeighborCache::new_precomputed(MAX_INCREMENTS, ARC);
    let model = CostModel::new();
    (grid, agent, cache, model)
}

#[test]
fn test_pathfind_straight() {
    let (grid, agent, cache, model) = default_state();
    let result = find_path(
        &grid,
        &agent,
        &cache,
        &model,
        GridVec::new(0, 0),
        0,
        GridVec::new(5, 0),
    );
    assert!(result.is_some());
    let (path, _) = result.unwrap();
    for i in 0..5 {
        let action = path.get(i).unwrap();
        assert_eq!(action.position, GridVec::new(i as i32, 0));
    }
}

#[test]
fn test_pathfind_diagonal() {
    let (grid, agent, cache, model) = default_state();
    let result = find_path(
        &grid,
        &agent,
        &cache,
        &model,
        GridVec::new(0, 0),
        1,
        GridVec::new(5, 5),
    );
    assert!(result.is_some());
    let (path, _) = result.unwrap();
    for i in 0..5 {
        let action = path.get(i).unwrap();
        assert_eq!(action.position, GridVec::new(i as i32, i as i32));
    }
}

#[test]
fn test_pathfind_blocked() {
    let (mut grid, agent, cache, model) = default_state();
    grid.toggle_cell(1, 0);
    grid.toggle_cell(1, 1);
    grid.toggle_cell(0, 1);
    let result = find_path(
        &grid,
        &agent,
        &cache,
        &model,
        GridVec::new(0, 0),
        0,
        GridVec::new(5, 5),
    );
    assert!(result.is_none());
}

#[test]
fn test_pathfind_turn() {
    let (grid, agent, cache, model) = default_state();
    let result = find_path(
        &grid,
        &agent,
        &cache,
        &model,
        GridVec::new(0, 0),
        0,
        GridVec::new(5, 5),
    );
    assert!(result.is_some());
    let (path, _) = result.unwrap();

    let action = path.get(0).unwrap();
    assert_eq!(action.position, GridVec::new(0, 0));
    assert_eq!(action.rotation, 0);
    let action = path.get(1).unwrap();
    assert_eq!(action.position, GridVec::new(1, 1));
    assert_eq!(action.rotation, 1);
    let action = path.get(2).unwrap();
    assert_eq!(action.position, GridVec::new(2, 2));
    assert_eq!(action.rotation, 1);
    let action = path.get(3).unwrap();
    assert_eq!(action.position, GridVec::new(3, 3));
    assert_eq!(action.rotation, 1);
    let action = path.get(4).unwrap();
    assert_eq!(action.position, GridVec::new(4, 4));
    assert_eq!(action.rotation, 1);
}

#[test]
fn test_pathfind_reverse_better_arc() {
    let (grid, agent, cache, model) = default_state();
    let result = find_path(
        &grid,
        &agent,
        &cache,
        &model,
        GridVec::new(5, 5),
        0,
        GridVec::new(5, 6),
    );
    assert!(result.is_some());
    let (path, _) = result.unwrap();

    let action = path.get(0).unwrap();
    assert_eq!(action.position, GridVec::new(5, 5));
    assert_eq!(action.rotation, 0);
    let action = path.get(1).unwrap();
    assert_eq!(action.position, GridVec::new(5, 6));
    assert_eq!(action.rotation, 6);
}

#[test]
fn test_pathfind_reverse_preferred_over_wide_arc() {
    // With a steep turning penalty and a mild reverse penalty, backing
    // straight up and then driving forward into the goal beats the
    // sharp reversing turn: the second pose keeps the start heading.
    let (grid, agent, cache, _) = default_state();
    let model = CostModel::with_constants(10000, 1000, 10, 2, 5898, 65536);
    let result = find_path(
        &grid,
        &agent,
        &cache,
        &model,
        GridVec::new(5, 5),
        0,
        GridVec::new(5, 6),
    );
    assert!(result.is_some());
    let (path, _) = result.unwrap();
    let start = path.get(0).unwrap();
    let second = path.get(1).unwrap();
    assert_eq!(start.position, GridVec::new(5, 5));
    assert_eq!(second.rotation, start.rotation);
    assert!(second.reverse);
    assert_eq!(second.position, GridVec::new(4, 5));
    let last = path.last().unwrap();
    assert_eq!(last.position, GridVec::new(5, 6));
}

#[test]
fn test_pathfind_deterministic() {
    let (mut grid, agent, cache, model) = default_state();
    grid.toggle_cell(3, 1);
    grid.toggle_cell(2, 2);
    let first = find_path(
        &grid,
        &agent,
        &cache,
        &model,
        GridVec::new(0, 0),
        0,
        GridVec::new(7, 4),
    );
    let second = find_path(
        &grid,
        &agent,
        &cache,
        &model,
        GridVec::new(0, 0),
        0,
        GridVec::new(7, 4),
    );
    let (p1, c1) = first.unwrap();
    let (p2, c2) = second.unwrap();
    assert_eq!(c1, c2);
    assert_eq!(p1.len(), p2.len());
    for i in 0..p1.len() {
        assert_eq!(p1[i].position, p2[i].position);
        assert_eq!(p1[i].rotation, p2[i].rotation);
        assert_eq!(p1[i].reverse, p2[i].reverse);
    }
}

#[test]
fn test_pathfind_start_is_goal() {
    let (grid, agent, cache, model) = default_state();
    let result = find_path(
        &grid,
        &agent,
        &cache,
        &model,
        GridVec::new(4, 4),
        3,
        GridVec::new(4, 4),
    );
    let (path, cost) = result.unwrap();
    assert_eq!(path.len(), 1);
    assert_eq!(path[0].position, GridVec::new(4, 4));
    assert_eq!(cost, 0);
}

#[test]
fn test_straight_path_cost() {
    // Five straight moves at distance one each: no turning penalty,
    // 1000 per cell of squared distance.
    let (grid, agent, cache, model) = default_state();
    let result = find_path(
        &grid,
        &agent,
        &cache,
        &model,
        GridVec::new(0, 0),
        0,
        GridVec::new(5, 0),
    );
    let (_, cost) = result.unwrap();
    assert_eq!(cost, 5000);
}

#[test]
fn test_cost_model_values() {
    let model = CostModel::new();
    let from = Cell::new(0, GridVec::new(0, 0));
    // A straight forward step: distance cost only.
    let to = Cell::new(0, GridVec::new(1, 0));
    assert_eq!(to.cost(Some(&from), &model, MAX_INCREMENTS), 1000);
    // The start pose itself costs nothing.
    assert_eq!(from.cost(None, &model, MAX_INCREMENTS), 0);
    // A straight reverse step multiplies by the reverse penalty.
    let back = Cell {
        rotation: 0,
        position: GridVec::new(-1, 0),
        reverse: true,
    };
    assert_eq!(back.cost(Some(&from), &model, MAX_INCREMENTS), 4000);
}

#[test]
fn test_heuristic_value() {
    let model = CostModel::new();
    let pose = Cell::new(0, GridVec::new(3, 4));
    assert_eq!(pose.heuristic(GridVec::new(0, 0), &model), 250);
}

#[test]
fn test_templates_nonempty_nonzero() {
    for n in [4u16, 8, 12, 32] {
        let cache = NeighborCache::new_precomputed(n, 1);
        for h in 0..n {
            let templates = cache.get(h as i16).unwrap();
            assert!(!templates.is_empty());
            for t in templates {
                assert!(!(t.offset.x == 0 && t.offset.y == 0));
                assert!((-1..=1).contains(&t.offset.x));
                assert!((-1..=1).contains(&t.offset.y));
                assert!((0..n as i16).contains(&t.rotation));
            }
        }
    }
}

#[test]
fn test_non_cardinal_straight_moves_filtered() {
    // With 32 headings only multiples of four point straight along one
    // of the eight compass directions. A straight move at heading 1
    // would silently skip cells, so it is filtered out; the straight
    // move at the diagonal heading 4 stays.
    let cache = NeighborCache::new_precomputed(32, 1);
    let oblique = cache.get(1).unwrap();
    assert_eq!(oblique.len(), 7);
    assert!(oblique.iter().all(|t| t.reverse || t.rotation != 1));
    let diagonal = cache.get(4).unwrap();
    assert_eq!(diagonal.len(), 8);
    let straight = diagonal.iter().find(|t| !t.reverse && t.rotation == 4).unwrap();
    assert_eq!(straight.offset, GridVec::new(1, 1));
}

#[test]
fn test_templates_heading_zero() {
    let cache = NeighborCache::new_precomputed(8, 1);
    let templates = cache.get(0).unwrap();
    // Three forward candidates, then five reverse candidates.
    assert_eq!(templates.len(), 8);
    assert_eq!(templates[0].offset, GridVec::new(1, -1));
    assert_eq!(templates[0].rotation, 7);
    assert!(!templates[0].reverse);
    assert_eq!(templates[1].offset, GridVec::new(1, 0));
    assert_eq!(templates[1].rotation, 0);
    assert!(!templates[1].reverse);
    assert_eq!(templates[2].offset, GridVec::new(1, 1));
    assert_eq!(templates[2].rotation, 1);
    assert!(!templates[2].reverse);
    // The straight reverse candidate backs away while keeping heading 0.
    let straight_back = templates
        .iter()
        .find(|t| t.reverse && t.rotation == 0)
        .unwrap();
    assert_eq!(straight_back.offset, GridVec::new(-1, 0));
    // Out-of-range headings have no templates.
    assert!(cache.get(8).is_none());
    assert!(cache.get(-1).is_none());
}
