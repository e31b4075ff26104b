use terrain_forge::{
    Bsp, Dla, Grid, Maze, MazeConfig, Prefab, PrefabPlacer, SimpleRooms, SimpleRoomsConfig, Tile, TileCell,
};

fn floors(grid: &Grid<TileCell>) -> usize {
    grid.count(|c| c.tile.is_floor())
}

#[test]
fn bsp_creates_rooms() {
    let mut grid: Grid<TileCell> = Grid::new(50, 50);
    Bsp::default().generate(&mut grid, 12345);
    let floor_count = grid.count(|c| c.tile.is_floor());
    assert!(floor_count > 0, "BSP should create floor tiles");
}

#[test]
fn bsp_deterministic() {
    let mut g1: Grid<TileCell> = Grid::new(50, 50);
    let mut g2: Grid<TileCell> = Grid::new(50, 50);
    Bsp::default().generate(&mut g1, 42);
    Bsp::default().generate(&mut g2, 42);
    for y in 0..50 {
        for x in 0..50 {
            assert_eq!(g1.cell(x, y).tile, g2.cell(x, y).tile);
        }
    }
}

#[test]
fn bsp_respects_bounds() {
    let mut grid: Grid<TileCell> = Grid::new(30, 30);
    Bsp::default().generate(&mut grid, 99);
    for x in 0..30 {
        assert!(grid.cell(x, 0).tile.is_wall());
        assert!(grid.cell(x, 29).tile.is_wall());
    }
    for y in 0..30 {
        assert!(grid.cell(0, y).tile.is_wall());
        assert!(grid.cell(29, y).tile.is_wall());
    }
}

#[test]
fn dla_creates_structure() {
    let mut grid: Grid<TileCell> = Grid::new(50, 50);
    Dla::default().generate(&mut grid, 12345);
    let floor_count = grid.count(|c| c.tile.is_floor());
    assert!(floor_count > 10, "DLA should create floor tiles");
}

#[test]
fn dla_deterministic() {
    let mut g1: Grid<TileCell> = Grid::new(40, 40);
    let mut g2: Grid<TileCell> = Grid::new(40, 40);
    Dla::default().generate(&mut g1, 42);
    Dla::default().generate(&mut g2, 42);
    for y in 0..40 {
        for x in 0..40 {
            assert_eq!(g1.cell(x, y).tile, g2.cell(x, y).tile);
        }
    }
}

#[test]
fn dla_grows_from_center() {
    let mut grid: Grid<TileCell> = Grid::new(30, 30);
    Dla::default().generate(&mut grid, 99);
    assert!(grid.cell(15, 15).tile.is_floor());
}

#[test]
fn dla_result_is_one_region() {
    let mut grid: Grid<TileCell> = Grid::new(30, 30);
    Dla::default().generate(&mut grid, 7);
    let regions = grid.flood_regions();
    assert_eq!(regions.len(), 1);
    assert_eq!(regions[0].len(), floors(&grid));
}

#[test]
fn maze_creates_paths() {
    let mut grid: Grid<TileCell> = Grid::new(21, 21);
    Maze::default().generate(&mut grid, 12345);
    let floor_count = grid.count(|c| c.tile.is_floor());
    assert!(floor_count > 0, "Should create floor tiles");
}

#[test]
fn maze_deterministic() {
    let mut g1: Grid<TileCell> = Grid::new(21, 21);
    let mut g2: Grid<TileCell> = Grid::new(21, 21);
    Maze::default().generate(&mut g1, 42);
    Maze::default().generate(&mut g2, 42);
    for y in 0..21 {
        for x in 0..21 {
            assert_eq!(g1.cell(x, y).tile, g2.cell(x, y).tile);
        }
    }
}

#[test]
fn maze_preserves_border() {
    let mut grid: Grid<TileCell> = Grid::new(21, 21);
    Maze::default().generate(&mut grid, 99);
    for x in 0..21 {
        assert!(grid.cell(x, 0).tile.is_wall());
        assert!(grid.cell(x, 20).tile.is_wall());
    }
}

#[test]
fn maze_perfect_on_odd_grid() {
    // a 21x21 grid holds 10x10 maze cells; a perfect maze floors all 100
    // cells and the 99 passages of its spanning tree
    let mut grid: Grid<TileCell> = Grid::new(21, 21);
    Maze::default().generate(&mut grid, 5);
    assert_eq!(floors(&grid), 199);
    assert_eq!(grid.flood_regions().len(), 1);
}

#[test]
fn maze_too_small_is_untouched() {
    let mut grid: Grid<TileCell> = Grid::new(4, 4);
    Maze::new(MazeConfig { corridor_width: 1 }).generate(&mut grid, 5);
    assert_eq!(floors(&grid), 0);
}

#[test]
fn prefab_places_rooms() {
    let prefabs = vec![Prefab::rect(5, 5), Prefab::cross(7)];
    let mut grid: Grid<TileCell> = Grid::new(50, 50);
    PrefabPlacer::with_prefabs(prefabs).generate(&mut grid, 12345);
    assert!(grid.count(|c| c.tile.is_floor()) > 0);
}

#[test]
fn prefab_from_pattern() {
    let prefab = Prefab::new(&["#...#", ".....", ".....", "#...#"]);
    assert_eq!(prefab.width, 5);
    assert_eq!(prefab.height, 4);
}

#[test]
fn prefab_pattern_cells() {
    let prefab = Prefab::new(&["#.", ".#"]);
    assert_eq!(prefab.data, vec![false, true, true, false]);
}

#[test]
fn prefab_cross_shape() {
    let p = Prefab::cross(3);
    assert_eq!(p.data, vec![false, true, false, true, true, true, false, true, false]);
}

#[test]
fn simple_rooms_creates_floors() {
    let mut grid: Grid<TileCell> = Grid::new(50, 50);
    SimpleRooms::default().generate(&mut grid, 12345);
    let floor_count = grid.count(|c| c.tile.is_floor());
    assert!(floor_count > 0, "Should create some floor tiles");
}

#[test]
fn simple_rooms_deterministic() {
    let mut g1: Grid<TileCell> = Grid::new(50, 50);
    let mut g2: Grid<TileCell> = Grid::new(50, 50);
    SimpleRooms::default().generate(&mut g1, 12345);
    SimpleRooms::default().generate(&mut g2, 12345);
    for y in 0..50 {
        for x in 0..50 {
            assert_eq!(g1.cell(x, y).tile, g2.cell(x, y).tile);
        }
    }
}

#[test]
fn simple_rooms_respects_config() {
    let config = SimpleRoomsConfig { min_room_size: 3, max_room_size: 5, max_rooms: 3, min_spacing: 2 };
    let mut grid: Grid<TileCell> = Grid::new(50, 50);
    SimpleRooms::new(config).generate(&mut grid, 42);
    let floor_count = grid.count(|c| c.tile.is_floor());
    assert!(floor_count > 0);
}

#[test]
fn generators_keep_border_walls() {
    let mut grid: Grid<TileCell> = Grid::new(25, 20);
    SimpleRooms::default().generate(&mut grid, 3);
    Bsp::default().generate(&mut grid, 3);
    for x in 0..25 {
        assert_eq!(grid.cell(x, 0).tile, Tile::Wall);
        assert_eq!(grid.cell(x, 19).tile, Tile::Wall);
    }
}

#[test]
fn prefab_placement_deterministic() {
    let mut g1: Grid<TileCell> = Grid::new(60, 60);
    let mut g2: Grid<TileCell> = Grid::new(60, 60);
    PrefabPlacer::with_prefabs(vec![Prefab::rect(5, 5), Prefab::cross(7)]).generate(&mut g1, 777);
    PrefabPlacer::with_prefabs(vec![Prefab::rect(5, 5), Prefab::cross(7)]).generate(&mut g2, 777);
    for y in 0..60 {
        for x in 0..60 {
            assert_eq!(g1.cell(x, y).tile, g2.cell(x, y).tile);
        }
    }
}
