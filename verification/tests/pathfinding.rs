use std::collections::HashMap;
use zomb8::game::ecs::systems::pathfinding::{
    bfs_path_finding, build_tile_grid, get_neighbor_pos, grid_key, outside, reconstruct_path,
    target_did_not_update, zombie_pathfinding_system, GridPos, TileGrid, ZombieTarget,
};

fn g(x: i32, y: i32) -> GridPos {
    GridPos::new(x, y)
}

fn open_box() -> (GridPos, GridPos) {
    (g(0, 0), g(5, 5))
}

fn is_route(path: &[GridPos], start: GridPos, target: GridPos, tiles: &TileGrid) -> bool {
    if path.is_empty() || path[0] != start || path[path.len() - 1] != target {
        return false;
    }
    path.windows(2).all(|w| {
        let (a, b) = (w[0], w[1]);
        (a.x - b.x).abs() + (a.y - b.y).abs() == 1 && !tiles.contains(&b)
    })
}

#[test]
fn grid_pos_new_keeps_coordinates() {
    let p = g(-3, 7);
    assert_eq!((p.x, p.y), (-3, 7));
}

#[test]
fn outside_box_edges_are_inside() {
    let c = open_box();
    assert!(!outside(&g(0, 0), &c));
    assert!(!outside(&g(5, 5), &c));
    assert!(outside(&g(-1, 0), &c));
    assert!(outside(&g(0, 6), &c));
    assert!(outside(&g(6, 3), &c));
    assert!(outside(&g(3, -1), &c));
}

#[test]
fn neighbors_in_order_left_right_up_down() {
    let c = open_box();
    assert_eq!(
        get_neighbor_pos(&g(2, 3), &c),
        Some([g(1, 3), g(3, 3), g(2, 2), g(2, 4)])
    );
    assert_eq!(get_neighbor_pos(&g(9, 9), &c), None);
}

#[test]
fn grid_keys_distinguish_cells() {
    assert_ne!(grid_key(&g(0, 1)), grid_key(&g(1, 0)));
    assert_eq!(grid_key(&g(i32::MIN, i32::MIN)), 0);
    assert_eq!(grid_key(&g(i32::MAX, i32::MAX)), u64::MAX);
    assert_eq!(grid_key(&g(0, 0)), 0x8000_0000_8000_0000);
}

#[test]
fn tile_grid_holds_inserted_cells() {
    let grid = build_tile_grid(&vec![g(1, 1), g(2, 1), g(1, 1)]);
    assert!(grid.contains(&g(1, 1)));
    assert!(grid.contains(&g(2, 1)));
    assert!(!grid.contains(&g(1, 2)));
    let mut grid = TileGrid::new();
    assert!(!grid.contains(&g(0, 0)));
    grid.insert(g(0, 0));
    assert!(grid.contains(&g(0, 0)));
}

#[test]
fn bfs_same_cell_is_empty() {
    let tiles = TileGrid::new();
    assert!(bfs_path_finding(g(2, 2), g(2, 2), &tiles, open_box()).is_empty());
}

#[test]
fn bfs_exact_path_follows_neighbor_order() {
    let tiles = TileGrid::new();
    let path = bfs_path_finding(g(0, 0), g(1, 1), &tiles, open_box());
    assert_eq!(path, vec![g(0, 0), g(1, 0), g(1, 1)]);
}

#[test]
fn bfs_prefers_left_before_up() {
    let tiles = TileGrid::new();
    let path = bfs_path_finding(g(1, 1), g(0, 0), &tiles, open_box());
    assert_eq!(path, vec![g(1, 1), g(0, 1), g(0, 0)]);
}

#[test]
fn bfs_around_a_wall_takes_the_first_shortest_route() {
    let tiles = build_tile_grid(&vec![g(2, 0), g(2, 1), g(2, 2), g(2, 3)]);
    let path = bfs_path_finding(g(0, 0), g(4, 0), &tiles, open_box());
    assert_eq!(
        path,
        vec![
            g(0, 0), g(1, 0), g(1, 1), g(1, 2), g(1, 3), g(1, 4), g(2, 4),
            g(3, 4), g(4, 4), g(4, 3), g(4, 2), g(4, 1), g(4, 0),
        ]
    );
}

#[test]
fn bfs_straight_line() {
    let tiles = TileGrid::new();
    let path = bfs_path_finding(g(0, 2), g(4, 2), &tiles, open_box());
    assert_eq!(path, vec![g(0, 2), g(1, 2), g(2, 2), g(3, 2), g(4, 2)]);
}

#[test]
fn bfs_goes_around_a_wall() {
    // A wall at x = 2 from y = 0 to y = 3; the gap is at y = 4 and 5.
    let tiles = build_tile_grid(&vec![g(2, 0), g(2, 1), g(2, 2), g(2, 3)]);
    let path = bfs_path_finding(g(0, 0), g(4, 0), &tiles, open_box());
    assert!(is_route(&path, g(0, 0), g(4, 0), &tiles));
    // 4 down, 4 across, 4 up: 12 moves, 13 cells.
    assert_eq!(path.len(), 13);
}

#[test]
fn bfs_unreachable_target_is_empty() {
    // The target is walled in on all four sides.
    let tiles = build_tile_grid(&vec![g(2, 3), g(4, 3), g(3, 2), g(3, 4)]);
    assert!(bfs_path_finding(g(0, 0), g(3, 3), &tiles, open_box()).is_empty());
}

#[test]
fn bfs_target_on_a_tile_is_unreachable() {
    let tiles = build_tile_grid(&vec![g(3, 3)]);
    assert!(bfs_path_finding(g(0, 0), g(3, 3), &tiles, open_box()).is_empty());
}

#[test]
fn bfs_may_end_one_step_outside_the_box() {
    let tiles = TileGrid::new();
    let path = bfs_path_finding(g(5, 2), g(6, 2), &tiles, open_box());
    assert_eq!(path, vec![g(5, 2), g(6, 2)]);
    // Two steps outside is out of reach: cells outside are not expanded.
    assert!(bfs_path_finding(g(5, 2), g(7, 2), &tiles, open_box()).is_empty());
}

#[test]
fn bfs_from_outside_the_box_finds_nothing() {
    let tiles = TileGrid::new();
    assert!(bfs_path_finding(g(9, 9), g(8, 9), &tiles, open_box()).is_empty());
}

#[test]
fn bfs_start_on_a_tile_still_searches() {
    let tiles = build_tile_grid(&vec![g(0, 0)]);
    let path = bfs_path_finding(g(0, 0), g(0, 1), &tiles, open_box());
    assert_eq!(path, vec![g(0, 0), g(0, 1)]);
}

#[test]
fn reconstruct_path_follows_predecessors() {
    let mut came_from = HashMap::new();
    came_from.insert(grid_key(&g(1, 0)), g(0, 0));
    came_from.insert(grid_key(&g(2, 0)), g(1, 0));
    came_from.insert(grid_key(&g(2, 1)), g(2, 0));
    let path = reconstruct_path(&came_from, g(0, 0), g(2, 1));
    assert_eq!(path, vec![g(0, 0), g(1, 0), g(2, 0), g(2, 1)]);
    assert_eq!(reconstruct_path(&came_from, g(0, 0), g(0, 0)), vec![g(0, 0)]);
}

#[test]
fn target_did_not_update_checks_last_cell() {
    let mut paths: HashMap<u64, Vec<GridPos>> = HashMap::new();
    assert!(!target_did_not_update(&paths, 1, &g(1, 1)));
    paths.insert(1, vec![g(0, 0), g(1, 0), g(1, 1)]);
    paths.insert(2, vec![]);
    assert!(target_did_not_update(&paths, 1, &g(1, 1)));
    assert!(!target_did_not_update(&paths, 1, &g(1, 0)));
    assert!(!target_did_not_update(&paths, 2, &g(1, 1)));
}

#[test]
fn zombie_pathfinding_records_routes_and_stops_idle_zombies() {
    let tiles = TileGrid::new();
    let mut paths: HashMap<u64, Vec<GridPos>> = HashMap::new();
    paths.insert(99, vec![g(3, 3)]);
    let zombies = vec![
        ZombieTarget { entity: 10, cell: g(0, 0), closest_player: Some(g(0, 2)) },
        ZombieTarget { entity: 11, cell: g(4, 4), closest_player: None },
        ZombieTarget { entity: 12, cell: g(1, 1), closest_player: None },
    ];
    let stopped = zombie_pathfinding_system(&zombies, &tiles, open_box(), &mut paths);
    assert_eq!(stopped, vec![11, 12]);
    assert_eq!(paths[&10], vec![g(0, 0), g(0, 1), g(0, 2)]);
    assert!(!paths.contains_key(&11));
    assert_eq!(paths[&99], vec![g(3, 3)]);
    // The next round finds the path current.
    assert!(target_did_not_update(&paths, 10, &g(0, 2)));
}

#[test]
fn zombie_pathfinding_keeps_current_paths() {
    let tiles = TileGrid::new();
    let mut paths: HashMap<u64, Vec<GridPos>> = HashMap::new();
    // A recorded path that ends at the player's cell stays as it is, even
    // though it is not a shortest route.
    let odd = vec![g(0, 0), g(1, 0), g(1, 1), g(0, 1)];
    paths.insert(5, odd.clone());
    let zombies = vec![ZombieTarget { entity: 5, cell: g(0, 0), closest_player: Some(g(0, 1)) }];
    let stopped = zombie_pathfinding_system(&zombies, &tiles, open_box(), &mut paths);
    assert!(stopped.is_empty());
    assert_eq!(paths[&5], odd);
    // When the player moves, the path is searched again.
    let zombies = vec![ZombieTarget { entity: 5, cell: g(0, 0), closest_player: Some(g(2, 0)) }];
    zombie_pathfinding_system(&zombies, &tiles, open_box(), &mut paths);
    assert_eq!(paths[&5], vec![g(0, 0), g(1, 0), g(2, 0)]);
}
