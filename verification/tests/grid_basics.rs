use rand::{Rng as _, SeedableRng};
use terrain_forge::{line_points, Grid, Rng, Tile, TileCell};

#[test]
fn new_grid_is_all_wall() {
    let g: Grid<Tile> = Grid::new(4, 3);
    assert_eq!(g.width(), 4);
    assert_eq!(g.height(), 3);
    assert_eq!(g.count(|t| t.is_wall()), 12);
    assert_eq!(g.count_passable(), 0);
}

#[test]
fn set_and_get_in_and_out_of_bounds() {
    let mut g: Grid<Tile> = Grid::new(3, 2);
    assert!(g.set(2, 1, Tile::Floor));
    assert!(!g.set(3, 0, Tile::Floor));
    assert!(!g.set(-1, 0, Tile::Floor));
    assert_eq!(g.get(2, 1), Some(&Tile::Floor));
    assert_eq!(g.get(0, 0), Some(&Tile::Wall));
    assert_eq!(g.get(0, 2), None);
    assert!(g.in_bounds(0, 1));
    assert!(!g.in_bounds(0, -1));
}

#[test]
fn get_mut_changes_the_cell() {
    let mut g: Grid<Tile> = Grid::new(2, 2);
    if let Some(c) = g.get_mut(1, 0) {
        *c = Tile::Floor;
    }
    assert!(g.get_mut(5, 5).is_none());
    assert!(g.cell(1, 0).is_floor());
    assert_eq!(g.count_passable(), 1);
}

#[test]
fn fill_and_fill_rect() {
    let mut g: Grid<Tile> = Grid::new(4, 4);
    g.fill(Tile::Floor);
    assert_eq!(g.count_passable(), 16);
    g.fill_rect(-1, -1, 3, 3, Tile::Wall);
    assert_eq!(g.count_passable(), 12);
    assert!(g.cell(1, 1).is_wall());
    assert!(g.cell(2, 2).is_floor());
}

#[test]
fn iter_is_row_major() {
    let mut g: Grid<Tile> = Grid::new(2, 2);
    g.set(1, 0, Tile::Floor);
    let cells = g.iter();
    assert_eq!(
        cells,
        vec![(0, 0, Tile::Wall), (1, 0, Tile::Floor), (0, 1, Tile::Wall), (1, 1, Tile::Wall)]
    );
}

#[test]
fn neighbours_stay_inside() {
    let g: Grid<Tile> = Grid::new(3, 3);
    assert_eq!(g.neighbors_4(0, 0), vec![(1, 0), (0, 1)]);
    assert_eq!(g.neighbors_4(1, 1), vec![(0, 1), (2, 1), (1, 0), (1, 2)]);
    assert_eq!(g.neighbors_8(0, 0).len(), 3);
    assert_eq!(g.neighbors_8(1, 1).len(), 8);
}

#[test]
fn flood_fill_finds_the_component() {
    let mut g: Grid<Tile> = Grid::new(4, 3);
    for &(x, y) in &[(0, 0), (1, 0), (1, 1), (3, 2)] {
        g.set(x, y, Tile::Floor);
    }
    let mut region = g.flood_fill(0, 0);
    assert_eq!(region[0], (0, 0));
    region.sort();
    assert_eq!(region, vec![(0, 0), (1, 0), (1, 1)]);
    assert!(g.flood_fill(2, 2).is_empty());
    assert!(g.flood_fill(9, 9).is_empty());
}

#[test]
fn flood_regions_in_first_cell_order() {
    let mut g: Grid<Tile> = Grid::new(4, 3);
    for &(x, y) in &[(3, 0), (0, 1), (0, 2), (2, 2)] {
        g.set(x, y, Tile::Floor);
    }
    let regions = g.flood_regions();
    assert_eq!(regions.len(), 3);
    assert_eq!(regions[0], vec![(3, 0)]);
    assert_eq!(regions[1][0], (0, 1));
    assert_eq!(regions[1].len(), 2);
    assert_eq!(regions[2], vec![(2, 2)]);
}

#[test]
fn line_points_steps_between_ends() {
    assert_eq!(line_points((0, 0), (3, 0)), vec![(0, 0), (1, 0), (2, 0), (3, 0)]);
    assert_eq!(line_points((2, 2), (2, 2)), vec![(2, 2)]);
    let diag = line_points((0, 0), (2, 2));
    assert_eq!(diag[0], (0, 0));
    assert_eq!(*diag.last().unwrap(), (2, 2));
    assert_eq!(diag.len(), 5);
}

#[test]
fn tile_predicates() {
    assert!(Tile::Wall.is_wall());
    assert!(!Tile::Wall.is_floor());
    assert!(Tile::Floor.is_floor());
    assert!(TileCell::floor().tile.is_floor());
    assert!(TileCell::wall().tile.is_wall());
}

#[test]
fn duplicate_copies_cells() {
    let mut g: Grid<Tile> = Grid::new(2, 2);
    g.set(0, 1, Tile::Floor);
    let d = g.duplicate();
    g.set(0, 1, Tile::Wall);
    assert!(d.cell(0, 1).is_floor());
    assert_eq!(d.width(), 2);
}

#[test]
fn rng_ranges_and_determinism() {
    let mut a = Rng::new(7);
    let mut b = Rng::new(7);
    for _ in 0..50 {
        let x = a.range(-3, 4);
        assert!((-3..4).contains(&x));
        assert_eq!(x, b.range(-3, 4));
        let u = a.range_usize(2, 5);
        assert!((2..5).contains(&u));
        assert_eq!(u, b.range_usize(2, 5));
        assert_eq!(a.coin(), b.coin());
    }
    let items = [10, 20, 30];
    let p = a.pick(&items).unwrap();
    assert!(items.contains(p));
    let empty: [u8; 0] = [];
    assert!(a.pick(&empty).is_none());
}

#[test]
fn grid_text_picture() {
    let mut grid: Grid<Tile> = Grid::new(3, 2);
    grid.set(1, 0, Tile::Floor);
    grid.set(2, 1, Tile::Floor);
    assert_eq!(grid.to_text(), "#.#\n##.");
    assert_eq!(Tile::Wall.symbol(), '#');
    assert_eq!(Tile::Floor.symbol(), '.');
    let empty: Grid<Tile> = Grid::new(4, 0);
    assert_eq!(empty.to_text(), "");
    let single: Grid<Tile> = Grid::new(2, 1);
    assert_eq!(single.to_text(), "##");
}

#[test]
fn flood_fill_is_breadth_first() {
    let mut g: Grid<Tile> = Grid::new(5, 2);
    for x in 0..5 {
        g.set(x, 0, Tile::Floor);
    }
    g.set(4, 1, Tile::Floor);
    let order = g.flood_fill(2, 0);
    assert_eq!(order, vec![(2, 0), (1, 0), (3, 0), (0, 0), (4, 0), (4, 1)]);
}

#[test]
fn rng_follows_the_chacha_stream() {
    let mut reference = rand_chacha::ChaCha8Rng::seed_from_u64(42);
    let mut rng = Rng::new(42);
    for _ in 0..5 {
        assert_eq!(rng.next_u64(), reference.gen::<u64>());
    }
    assert_eq!(rng.range_usize(3, 17), reference.gen_range(3usize..17));
    assert_eq!(rng.range(-5, 9), reference.gen_range(-5i32..9));
    assert_eq!(rng.word_pos(), reference.get_word_pos());
    let mut copy = rng.clone();
    assert_eq!(copy.next_u64(), rng.next_u64());
    let mut again = Rng::new(42);
    let first = again.next_u64();
    let mut fresh = rand_chacha::ChaCha8Rng::seed_from_u64(42);
    assert_eq!(first, fresh.gen::<u64>());
}

#[test]
fn chance_below_compares_the_top_bits() {
    let mut a = Rng::new(7);
    let mut b = Rng::new(7);
    let v = a.next_u64();
    let t = (v >> 11) + 1;
    assert!(b.chance_below(t));
    let mut c = Rng::new(7);
    assert!(!c.chance_below(v >> 11));
}
