use terrain_forge::structures::bsp::BspNode;
use terrain_forge::structures::prefab::stamp;
use terrain_forge::structures::rooms::{carve_rooms, Room};
use terrain_forge::{
    AgentBased, AgentConfig, CellularAutomata, CellularConfig, Dla, DlaConfig, DrunkardConfig, DrunkardWalk, Grid, Maze, Mst, Percolation, Prefab, PrefabConfig, PrefabPlacer,
    PercolationConfig, TileCell, Voronoi, VoronoiConfig, Wfc, WfcConfig, WfcRules, CHANCE_ONE,
};

fn floors(grid: &Grid<TileCell>) -> usize {
    grid.count(|c| c.tile.is_floor())
}

#[test]
fn wfc_generates_content() {
    let mut grid: Grid<TileCell> = Grid::new(20, 20);
    Wfc::default().generate(&mut grid, 12345);
    let floor_count = grid.count(|c| c.tile.is_floor());
    assert!(floor_count > 0, "WFC should create some floors");
}

#[test]
fn wfc_deterministic() {
    let mut g1: Grid<TileCell> = Grid::new(20, 20);
    let mut g2: Grid<TileCell> = Grid::new(20, 20);
    Wfc::default().generate(&mut g1, 42);
    Wfc::default().generate(&mut g2, 42);
    for y in 0..20 {
        for x in 0..20 {
            assert_eq!(g1.cell(x, y).tile, g2.cell(x, y).tile);
        }
    }
}

#[test]
fn wfc_preserves_border() {
    let mut grid: Grid<TileCell> = Grid::new(15, 15);
    Wfc::default().generate(&mut grid, 99);
    for x in 0..15 {
        assert!(grid.cell(x, 0).tile.is_wall());
        assert!(grid.cell(x, 14).tile.is_wall());
    }
}

#[test]
fn wfc_floor_rules_forbid_floor_pairs() {
    // Floor may only sit next to wall: no two floors end up side by side.
    let rules = WfcRules { adjacencies: vec![vec![0, 1], vec![0]] };
    let config = WfcConfig { rules, floor_weight: 1 << 52 };
    let mut grid: Grid<TileCell> = Grid::new(12, 12);
    Wfc::new(config).generate(&mut grid, 7);
    assert!(floors(&grid) > 0);
    for y in 1..11 {
        for x in 1..11 {
            if grid.cell(x, y).tile.is_floor() {
                assert!(!grid.cell(x + 1, y).tile.is_floor());
                assert!(!grid.cell(x, y + 1).tile.is_floor());
            }
        }
    }
}

#[test]
fn wfc_certain_floor_fills_interior() {
    let config = WfcConfig { rules: WfcRules::simple_dungeon(), floor_weight: 1 << 53 };
    let mut grid: Grid<TileCell> = Grid::new(6, 5);
    Wfc::new(config).generate(&mut grid, 3);
    assert_eq!(floors(&grid), 4 * 3);
}

#[test]
fn wfc_empty_grid() {
    let mut grid: Grid<TileCell> = Grid::new(0, 0);
    Wfc::default().generate(&mut grid, 1);
    assert_eq!(grid.width(), 0);
}

#[test]
fn cellular_creates_caves() {
    let mut grid: Grid<TileCell> = Grid::new(50, 50);
    CellularAutomata::default().generate(&mut grid, 12345);
    let floor_count = grid.count(|c| c.tile.is_floor());
    assert!(floor_count > 0, "Should create floor tiles");
    assert!(floor_count < 50 * 50, "Should not fill entire grid");
}

#[test]
fn cellular_deterministic() {
    let mut g1: Grid<TileCell> = Grid::new(40, 40);
    let mut g2: Grid<TileCell> = Grid::new(40, 40);
    CellularAutomata::default().generate(&mut g1, 42);
    CellularAutomata::default().generate(&mut g2, 42);
    for y in 0..40 {
        for x in 0..40 {
            assert_eq!(g1.cell(x, y).tile, g2.cell(x, y).tile);
        }
    }
}

#[test]
fn cellular_preserves_border() {
    let mut grid: Grid<TileCell> = Grid::new(30, 30);
    CellularAutomata::default().generate(&mut grid, 99);
    for x in 0..30 {
        assert!(grid.cell(x, 0).tile.is_wall());
        assert!(grid.cell(x, 29).tile.is_wall());
    }
}

#[test]
fn cellular_zero_iterations_keeps_fill() {
    // Certain fill, no steps: every inner cell is floor.
    let config = CellularConfig { initial_floor_chance: CHANCE_ONE, iterations: 0, birth_limit: 5, death_limit: 4 };
    let mut grid: Grid<TileCell> = Grid::new(7, 6);
    CellularAutomata::new(config).generate(&mut grid, 1);
    assert_eq!(floors(&grid), 5 * 4);
}

#[test]
fn cellular_step_erodes_lone_floor() {
    // Certain fill on a 5x5 grid gives a 3x3 floor block; one step with
    // death limit 4 keeps only cells with at least 4 floor neighbours.
    let config = CellularConfig { initial_floor_chance: CHANCE_ONE, iterations: 1, birth_limit: 9, death_limit: 4 };
    let mut grid: Grid<TileCell> = Grid::new(5, 5);
    CellularAutomata::new(config).generate(&mut grid, 1);
    // Corners of the block have 3 floor neighbours, edges 5, the centre 8.
    assert!(grid.cell(1, 1).tile.is_wall());
    assert!(grid.cell(2, 1).tile.is_floor());
    assert!(grid.cell(2, 2).tile.is_floor());
    assert_eq!(floors(&grid), 5);
}

#[test]
fn drunkard_creates_path() {
    let mut grid: Grid<TileCell> = Grid::new(50, 50);
    DrunkardWalk::default().generate(&mut grid, 12345);
    let floor_count = grid.count(|c| c.tile.is_floor());
    assert!(floor_count > 100, "Should create significant floor area");
}

#[test]
fn drunkard_deterministic() {
    let mut g1: Grid<TileCell> = Grid::new(40, 40);
    let mut g2: Grid<TileCell> = Grid::new(40, 40);
    DrunkardWalk::default().generate(&mut g1, 42);
    DrunkardWalk::default().generate(&mut g2, 42);
    for y in 0..40 {
        for x in 0..40 {
            assert_eq!(g1.cell(x, y).tile, g2.cell(x, y).tile);
        }
    }
}

#[test]
fn drunkard_respects_target() {
    // A floor share of 0.3, written in units of 2^-53.
    let config = DrunkardConfig { floor_percent: 2702159776422298, max_iterations: 100000 };
    let mut grid: Grid<TileCell> = Grid::new(50, 50);
    DrunkardWalk::new(config).generate(&mut grid, 99);
    let floor_count = grid.count(|c| c.tile.is_floor());
    let percent = floor_count as f64 / (50.0 * 50.0);
    assert!(percent >= 0.25 && percent <= 0.35, "Floor percent {} not near target", percent);
}

#[test]
fn drunkard_stops_at_target() {
    // A share of one half of 10x10 is 50 cells: exactly that many become floor.
    let config = DrunkardConfig { floor_percent: CHANCE_ONE / 2, max_iterations: 1_000_000 };
    let mut grid: Grid<TileCell> = Grid::new(10, 10);
    DrunkardWalk::new(config).generate(&mut grid, 5);
    assert_eq!(floors(&grid), 50);
    assert!(grid.cell(5, 5).tile.is_floor());
    assert_eq!(grid.flood_regions().len(), 1);
}

#[test]
fn percolation_creates_cluster() {
    let mut grid: Grid<TileCell> = Grid::new(50, 50);
    Percolation::default().generate(&mut grid, 12345);
    assert!(grid.count(|c| c.tile.is_floor()) > 0);
}

#[test]
fn percolation_deterministic() {
    let mut g1: Grid<TileCell> = Grid::new(50, 50);
    let mut g2: Grid<TileCell> = Grid::new(50, 50);
    Percolation::default().generate(&mut g1, 12345);
    Percolation::default().generate(&mut g2, 12345);
    for y in 0..50 {
        for x in 0..50 {
            assert_eq!(g1.cell(x, y).tile, g2.cell(x, y).tile);
        }
    }
}

#[test]
fn percolation_keeps_one_region() {
    let mut grid: Grid<TileCell> = Grid::new(30, 30);
    Percolation::default().generate(&mut grid, 7);
    assert_eq!(grid.flood_regions().len(), 1);
    let config = PercolationConfig { fill_probability: 4053239664633447, keep_largest: false };
    let mut loose: Grid<TileCell> = Grid::new(30, 30);
    Percolation::new(config).generate(&mut loose, 7);
    assert!(loose.flood_regions().len() > 1);
    // The kept region is the largest of the loose fill.
    let largest = loose.flood_regions().iter().map(|r| r.len()).max().unwrap();
    assert_eq!(floors(&grid), largest);
}

#[test]
fn voronoi_creates_regions() {
    let mut grid: Grid<TileCell> = Grid::new(50, 50);
    Voronoi::default().generate(&mut grid, 12345);
    let floor_count = grid.count(|c| c.tile.is_floor());
    assert!(floor_count > 0, "Should create floor regions");
    assert!(floor_count < 50 * 50, "Should not fill entire grid");
}

#[test]
fn voronoi_deterministic() {
    let mut g1: Grid<TileCell> = Grid::new(30, 30);
    let mut g2: Grid<TileCell> = Grid::new(30, 30);
    Voronoi::default().generate(&mut g1, 42);
    Voronoi::default().generate(&mut g2, 42);
    for y in 0..30 {
        for x in 0..30 {
            assert_eq!(g1.cell(x, y).tile, g2.cell(x, y).tile);
        }
    }
}

#[test]
fn voronoi_respects_config() {
    // A floor chance of 0.8, written in units of 2^-53.
    let config = VoronoiConfig { num_points: 5, floor_chance: 7205759403792794 };
    let mut grid: Grid<TileCell> = Grid::new(40, 40);
    Voronoi::new(config).generate(&mut grid, 99);
    let floor_count = grid.count(|c| c.tile.is_floor());
    assert!(floor_count > 500);
}

#[test]
fn voronoi_certain_floor_fills_interior() {
    let config = VoronoiConfig { num_points: 3, floor_chance: CHANCE_ONE };
    let mut grid: Grid<TileCell> = Grid::new(8, 6);
    Voronoi::new(config).generate(&mut grid, 4);
    assert_eq!(floors(&grid), 6 * 4);
}

#[test]
fn agent_creates_paths() {
    let mut grid: Grid<TileCell> = Grid::new(50, 50);
    AgentBased::default().generate(&mut grid, 12345);
    assert!(grid.count(|c| c.tile.is_floor()) > 0);
}

#[test]
fn agent_deterministic() {
    let mut g1: Grid<TileCell> = Grid::new(50, 50);
    let mut g2: Grid<TileCell> = Grid::new(50, 50);
    AgentBased::default().generate(&mut g1, 12345);
    AgentBased::default().generate(&mut g2, 12345);
    for y in 0..50 {
        for x in 0..50 {
            assert_eq!(g1.cell(x, y).tile, g2.cell(x, y).tile);
        }
    }
}

#[test]
fn agent_single_walker_is_one_tunnel() {
    let config = AgentConfig { num_agents: 1, steps_per_agent: 300, turn_chance: 2702159776422298 };
    let mut grid: Grid<TileCell> = Grid::new(30, 30);
    AgentBased::new(config).generate(&mut grid, 11);
    assert_eq!(grid.flood_regions().len(), 1);
    for x in 0..30 {
        assert!(grid.cell(x, 0).tile.is_wall());
        assert!(grid.cell(x, 29).tile.is_wall());
    }
}

#[test]
fn mst_connects_all() {
    // The complete graph on (10,10) (40,10) (25,40) (10,40) (40,40),
    // its edges in ascending order of length.
    let edges = vec![(2, 3), (2, 4), (0, 1), (0, 3), (1, 4), (3, 4), (0, 2), (1, 2), (0, 4), (1, 3)];
    let kept = Mst::forest(&edges, 5);
    assert_eq!(kept, vec![0, 1, 2, 3]);
    assert_eq!(kept.len(), 5 - 1);
}

#[test]
fn mst_skips_edges_within_one_part() {
    let edges = vec![(0, 0), (0, 1), (1, 0), (2, 3), (1, 2), (0, 3)];
    assert_eq!(Mst::forest(&edges, 4), vec![1, 3, 4]);
    assert_eq!(Mst::forest(&Vec::new(), 3), Vec::<usize>::new());
    assert_eq!(Mst::forest(&vec![(0, 1), (2, 3)], 5), vec![0, 1]);
}

#[test]
fn rooms_layout_is_carved_exactly() {
    let mut grid: Grid<TileCell> = Grid::new(10, 8);
    let rooms = vec![Room { x: 1, y: 1, w: 3, h: 2 }, Room { x: 6, y: 4, w: 2, h: 2 }];
    carve_rooms(&mut grid, &rooms, &vec![false, true]);
    let mut rows = Vec::new();
    for y in 0..8 {
        let mut row = String::new();
        for x in 0..10 {
            row.push(if grid.cell(x, y).tile.is_floor() { '.' } else { '#' });
        }
        rows.push(row);
    }
    assert_eq!(
        rows,
        vec!["##########", "#...######", "#.......##", "#######.##", "######..##", "######..##", "##########", "##########"]
    );

    let mut other: Grid<TileCell> = Grid::new(10, 8);
    carve_rooms(&mut other, &rooms, &vec![false, false]);
    // Column of the first centre (x = 2) from row 2 to row 5, then row 5 to x = 7.
    assert!(other.cell(2, 4).tile.is_floor());
    assert!(other.cell(4, 5).tile.is_floor());
    assert!(!other.cell(4, 2).tile.is_floor());
}

fn picture(grid: &Grid<TileCell>) -> Vec<String> {
    let mut rows = Vec::new();
    for y in 0..grid.height() {
        let mut row = String::new();
        for x in 0..grid.width() {
            row.push(if grid.cell(x, y).tile.is_floor() { '.' } else { '#' });
        }
        rows.push(row);
    }
    rows
}

#[test]
fn bsp_tree_is_carved_exactly() {
    let leaf = |x: usize, w: usize, room: (usize, usize, usize, usize)| BspNode {
        x,
        y: 1,
        w,
        h: 6,
        left: None,
        right: None,
        room: Some(room),
    };
    let tree = BspNode {
        x: 1,
        y: 1,
        w: 8,
        h: 6,
        left: Some(Box::new(leaf(1, 4, (1, 1, 3, 3)))),
        right: Some(Box::new(leaf(5, 4, (5, 2, 3, 3)))),
        room: None,
    };
    assert_eq!(tree.get_room_center(), Some((2, 2)));
    let mut grid: Grid<TileCell> = Grid::new(10, 8);
    tree.carve(&mut grid);
    assert_eq!(
        picture(&grid),
        vec!["##########", "#...######", "#.......##", "#...#...##", "#####...##", "##########", "##########", "##########"]
    );
}

#[test]
fn maze_reaches_every_cell() {
    // Four maze cells in a 5 by 5 grid: their squares and three passages.
    for seed in 0..20u64 {
        let mut grid: Grid<TileCell> = Grid::new(5, 5);
        Maze::default().generate(&mut grid, seed);
        assert_eq!(floors(&grid), 4 + 3);
        for (x, y) in [(1, 1), (3, 1), (1, 3), (3, 3)] {
            assert!(grid.cell(x, y).tile.is_floor());
        }
        assert!(!grid.cell(2, 2).tile.is_floor());
    }
    // Too small for two maze cells each way: left alone.
    let mut small: Grid<TileCell> = Grid::new(4, 9);
    Maze::default().generate(&mut small, 7);
    assert_eq!(floors(&small), 0);
}

#[test]
fn prefab_stamp_floors_its_floor_entries() {
    let mut grid: Grid<TileCell> = Grid::new(6, 6);
    let prefab = Prefab::new(&["#.", ".."]);
    stamp(&mut grid, &prefab, 2, 3);
    assert!(!grid.cell(2, 3).tile.is_floor());
    assert!(grid.cell(3, 3).tile.is_floor());
    assert!(grid.cell(2, 4).tile.is_floor());
    assert!(grid.cell(3, 4).tile.is_floor());
    assert_eq!(floors(&grid), 3);

    let placer = PrefabPlacer::new(PrefabConfig { max_prefabs: 1, min_spacing: 0 }, vec![Prefab::rect(3, 3)]);
    for seed in 0..10u64 {
        let mut g: Grid<TileCell> = Grid::new(9, 9);
        placer.generate(&mut g, seed);
        assert_eq!(floors(&g), 9);
    }
}

#[test]
fn drunkard_walk_stays_inside() {
    // The only inner cell of a 3 by 3 grid is its centre.
    let walk = DrunkardWalk::new(DrunkardConfig { floor_percent: CHANCE_ONE, max_iterations: 100 });
    let mut grid: Grid<TileCell> = Grid::new(3, 3);
    walk.generate(&mut grid, 5);
    assert_eq!(floors(&grid), 1);
    assert!(grid.cell(1, 1).tile.is_floor());
    // No steps: only the centre.
    let still = DrunkardWalk::new(DrunkardConfig { floor_percent: CHANCE_ONE, max_iterations: 0 });
    let mut big: Grid<TileCell> = Grid::new(9, 9);
    still.generate(&mut big, 5);
    assert_eq!(floors(&big), 1);
    assert!(big.cell(4, 4).tile.is_floor());
}

#[test]
fn dla_grows_from_the_centre_only() {
    // In a 3 by 3 grid the only inner cell is the seed itself.
    let mut grid: Grid<TileCell> = Grid::new(3, 3);
    Dla::default().generate(&mut grid, 11);
    assert_eq!(floors(&grid), 1);
    assert!(grid.cell(1, 1).tile.is_floor());
    // With no particles only the seed is floor.
    let mut big: Grid<TileCell> = Grid::new(15, 11);
    Dla::new(DlaConfig { num_particles: 0, max_walk_steps: 10 }).generate(&mut big, 3);
    assert_eq!(floors(&big), 1);
    assert!(big.cell(7, 5).tile.is_floor());
}
