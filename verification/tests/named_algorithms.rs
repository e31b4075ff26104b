use terrain_forge::ops::{build_algorithm, effect, effect_fits, AlgorithmSpec, ParamValue, Params};
use terrain_forge::pipeline::{execute_step, CombineSource, Keyed, PipelineContext, Step};
use terrain_forge::{
    CellularAutomata, CellularConfig, CombineMode, Grid, Percolation, PercolationConfig, Prefab, Rng, Tile, TileCell,
    Voronoi, VoronoiConfig, Wfc, WfcConfig, WfcRules, CHANCE_ONE,
};

fn value(int: Option<u64>, chance: Option<u64>, flag: Option<bool>) -> ParamValue {
    ParamValue { int, chance, flag, point: None, cell: None, prefabs: Vec::new() }
}

#[test]
fn build_algorithm_defaults_for_bsp() {
    match build_algorithm("  bsp ", None) {
        Ok(AlgorithmSpec::Bsp(c)) => {
            assert_eq!(c.min_room_size, 5);
            assert_eq!(c.max_depth, 4);
            assert_eq!(c.room_padding, 1);
        }
        _ => panic!("expected a BSP generator"),
    }
}

#[test]
fn build_algorithm_unknown_name() {
    match build_algorithm("  nonsense\t", None) {
        Err(e) => assert_eq!(e.message(), "Unknown algorithm: nonsense"),
        Ok(_) => panic!("expected an error"),
    }
    match build_algorithm("BSP", None) {
        Err(e) => assert_eq!(e.message(), "Unknown algorithm: BSP"),
        Ok(_) => panic!("names are matched exactly"),
    }
}

#[test]
fn build_algorithm_reads_params() {
    let mut params: Params = Keyed::new();
    params.insert("iterations", value(Some(7), Some(7 * terrain_forge::CHANCE_ONE), None));
    params.insert("initial_floor_chance", value(None, Some(123), None));
    params.insert("birth_limit", value(None, Some(5), Some(true)));
    match build_algorithm("cellular_automata", Some(&params)) {
        Ok(AlgorithmSpec::Cellular(c)) => {
            assert_eq!(c.iterations, 7);
            assert_eq!(c.initial_floor_chance, 123);
            assert_eq!(c.birth_limit, 5);
            assert_eq!(c.death_limit, 4);
        }
        _ => panic!("expected a cellular generator"),
    }
    let mut flags: Params = Keyed::new();
    flags.insert("keep_largest", value(None, None, Some(false)));
    match build_algorithm("percolation", Some(&flags)) {
        Ok(AlgorithmSpec::Percolation(c)) => {
            assert!(!c.keep_largest);
            assert_eq!(c.fill_probability, 4053239664633447);
        }
        _ => panic!("expected a percolation generator"),
    }
}

#[test]
fn build_algorithm_prefabs() {
    match build_algorithm("prefab", None) {
        Ok(AlgorithmSpec::Prefab(c, ps)) => {
            assert_eq!(c.max_prefabs, 3);
            assert_eq!(c.min_spacing, 5);
            assert_eq!(ps.len(), 1);
            assert_eq!((ps[0].width, ps[0].height), (5, 5));
            assert!(ps[0].data.iter().all(|&f| f));
        }
        _ => panic!("expected a prefab placer"),
    }
    let mut params: Params = Keyed::new();
    params.insert(
        "prefabs",
        ParamValue { int: None, chance: None, flag: None, point: None, cell: None, prefabs: vec![Prefab::new(&["#.#", "..."])] },
    );
    params.insert("max_prefabs", value(Some(2), None, None));
    match build_algorithm("prefab", Some(&params)) {
        Ok(AlgorithmSpec::Prefab(c, ps)) => {
            assert_eq!(c.max_prefabs, 2);
            assert_eq!(ps.len(), 1);
            assert_eq!((ps[0].width, ps[0].height), (3, 2));
            assert_eq!(ps[0].data, vec![false, true, false, true, true, true]);
        }
        _ => panic!("expected a prefab placer"),
    }
}

#[test]
fn algorithm_spec_fits_and_generates() {
    let bsp = build_algorithm("bsp", None).ok().unwrap();
    assert!(!bsp.fits(1, 40));
    assert!(bsp.fits(40, 30));
    let maze = build_algorithm("maze", None).ok().unwrap();
    assert!(maze.fits(21, 21));
    let mut grid: Grid<TileCell> = Grid::new(21, 21);
    maze.generate(&mut grid, 7);
    assert_eq!((grid.width(), grid.height()), (21, 21));
    assert!(grid.count(|c| c.tile.is_floor()) > 0);
    for x in 0..21i32 {
        assert_eq!(grid.get(x, 0).map(|c| c.tile.is_floor()), Some(false));
    }
}

fn tiles(rows: &[&str]) -> Grid<Tile> {
    let mut g: Grid<Tile> = Grid::new(rows[0].len(), rows.len());
    for (y, row) in rows.iter().enumerate() {
        for (x, ch) in row.chars().enumerate() {
            g.set(x as i32, y as i32, if ch == '.' { Tile::Floor } else { Tile::Wall });
        }
    }
    g
}

fn picture(g: &Grid<Tile>) -> Vec<String> {
    (0..g.height() as i32)
        .map(|y| {
            (0..g.width() as i32)
                .map(|x| if g.get(x, y).map_or(false, |t| t.is_floor()) { '.' } else { '#' })
                .collect()
        })
        .collect()
}

#[test]
fn effect_invert_and_mirror() {
    let mut g = tiles(&["#..", "##."]);
    assert!(effect(" invert ", &mut g, None).is_ok());
    assert_eq!(picture(&g), vec![".##", "..#"]);
    let mut m = tiles(&["#..", "##."]);
    assert!(effect("mirror", &mut m, None).is_ok());
    assert_eq!(picture(&m), vec!["...", ".#."]);
}

#[test]
fn effect_unknown_and_missing_params() {
    let mut g = tiles(&["#..", "##."]);
    match effect("sparkle", &mut g, None) {
        Err(e) => assert_eq!(e.message(), "Unknown effect: sparkle"),
        Ok(_) => panic!("expected an error"),
    }
    match effect("clear_rect", &mut g, None) {
        Err(e) => assert_eq!(e.message(), "clear_rect requires params"),
        Ok(_) => panic!("expected an error"),
    }
    let empty: Params = Keyed::new();
    match effect("clear_rect", &mut g, Some(&empty)) {
        Err(e) => assert_eq!(e.message(), "clear_rect requires center: [x, y]"),
        Ok(_) => panic!("expected an error"),
    }
    match effect("resize", &mut g, Some(&empty)) {
        Err(e) => assert_eq!(e.message(), "resize requires width"),
        Ok(_) => panic!("expected an error"),
    }
    assert_eq!(picture(&g), vec!["#..", "##."]);
}

#[test]
fn effect_clear_rect_and_resize() {
    let mut g = tiles(&["#####", "#####", "#####", "#####"]);
    let mut params: Params = Keyed::new();
    params.insert("center", ParamValue { int: None, chance: None, flag: None, point: Some((2, 1)), cell: None, prefabs: Vec::new() });
    assert!(effect("clear_rect", &mut g, Some(&params)).is_ok());
    assert_eq!(picture(&g), vec!["#...#", "#...#", "#...#", "#####"]);
    let mut r: Params = Keyed::new();
    r.insert("width", value(Some(6), None, None));
    r.insert("height", value(Some(2), None, None));
    r.insert("pad", ParamValue { int: None, chance: None, flag: None, point: None, cell: Some(Tile::Floor), prefabs: Vec::new() });
    assert!(effect("resize", &mut g, Some(&r)).is_ok());
    assert_eq!(picture(&g), vec!["#...#.", "#...#."]);
}

#[test]
fn effect_fits_checks_sizes() {
    let mut p: Params = Keyed::new();
    p.insert("radius", value(Some(3), None, None));
    assert!(!effect_fits("median_filter", Some(&p), 10, 2));
    assert!(effect_fits("median_filter", Some(&p), 10, 10));
    assert!(!effect_fits("gaussian_blur", None, 5, 1));
    assert!(effect_fits("nonsense", None, 0, 0));
}

#[test]
fn execute_step_logs_and_stores() {
    let mut g = tiles(&["#..", "##."]);
    let mut ctx = PipelineContext::new();
    let mut rng = Rng::new(1);
    let invert = Step::Effect { name: "invert".to_string(), params: None };
    assert!(execute_step(&invert, &mut g, &mut ctx, &mut rng).is_ok());
    assert_eq!(picture(&g), vec![".##", "..#"]);
    let store = Step::StoreGrid { key: "a".to_string() };
    assert!(execute_step(&store, &mut g, &mut ctx, &mut rng).is_ok());
    assert!(ctx.get_grid("a").is_some());
    let set = Step::SetParameter { key: "k".to_string(), value: "v".to_string() };
    assert!(execute_step(&set, &mut g, &mut ctx, &mut rng).is_ok());
    assert_eq!(ctx.get_parameter("k").map(|s| s.as_str()), Some("v"));
    let log = Step::Log { message: "hello".to_string() };
    assert!(execute_step(&log, &mut g, &mut ctx, &mut rng).is_ok());
    let missing = Step::Combine { mode: CombineMode::Union, source: CombineSource::Saved("b".to_string()) };
    match execute_step(&missing, &mut g, &mut ctx, &mut rng) {
        Err(e) => assert_eq!(e.message(), "Unknown saved grid: b"),
        Ok(_) => panic!("expected an error"),
    }
    let union = Step::Combine {
        mode: CombineMode::Union,
        source: CombineSource::Grid(tiles(&["...", "###"])),
    };
    assert!(execute_step(&union, &mut g, &mut ctx, &mut rng).is_ok());
    assert_eq!(picture(&g), vec!["...", "..#"]);
    let mut maze_grid = tiles(&["#####", "#####", "#####", "#####", "#####"]);
    let maze = Step::Algorithm { name: "maze".to_string(), seed: Some(7), params: None };
    assert!(execute_step(&maze, &mut maze_grid, &mut ctx, &mut rng).is_ok());
    let unknown = Step::Algorithm { name: " blob ".to_string(), seed: Some(7), params: None };
    match execute_step(&unknown, &mut maze_grid, &mut ctx, &mut rng) {
        Err(e) => assert_eq!(e.message(), "Unknown algorithm: blob"),
        Ok(_) => panic!("expected an error"),
    }
    let history: Vec<&str> = ctx.execution_history().iter().map(|s| s.as_str()).collect();
    assert_eq!(history, vec!["Effect: invert", "hello", "Combine: Union", "Algorithm: maze (seed: 7)"]);
}

#[test]
fn effect_refuses_caller_effects() {
    let mut g = tiles(&["#..", "##."]);
    match effect(" domain_warp ", &mut g, None) {
        Err(e) => assert_eq!(e.message(), "Effect not applied by the library: domain_warp"),
        Ok(_) => panic!("expected an error"),
    }
    assert_eq!(picture(&g), vec!["#..", "##."]);
}

#[test]
fn scatter_by_name_reads_density_and_seed() {
    let mut full = Params::new();
    full.insert("density", value(None, Some(CHANCE_ONE), None));
    let mut g = tiles(&["####", "####", "####"]);
    assert!(effect_fits("scatter", Some(&full), 4, 3));
    assert!(effect("scatter", &mut g, Some(&full)).is_ok());
    assert_eq!(picture(&g), vec!["####", "#..#", "####"]);
    let mut none = Params::new();
    none.insert("density", value(None, Some(0), None));
    let mut g = tiles(&["####", "####", "####"]);
    assert!(effect("scatter", &mut g, Some(&none)).is_ok());
    assert_eq!(picture(&g), vec!["####", "####", "####"]);
    let mut a = tiles(&["########"; 8]);
    let mut b = tiles(&["########"; 8]);
    assert!(effect("scatter", &mut a, None).is_ok());
    terrain_forge::effects::scatter(&mut b, 1080863910568919, 42);
    assert_eq!(picture(&a), picture(&b));
}

#[test]
fn connect_regions_spanning_by_name_joins_regions() {
    let mut params = Params::new();
    params.insert("extra_connection_chance", value(None, Some(0), None));
    params.insert("seed", value(Some(5), None, None));
    let mut g = tiles(&["#####", "#.#.#", "#####"]);
    assert!(effect_fits("connect_regions_spanning", Some(&params), 5, 3));
    assert!(effect("connect_regions_spanning", &mut g, Some(&params)).is_ok());
    assert_eq!(picture(&g), vec!["#####", "#...#", "#####"]);
}

#[test]
fn chance_settings_at_the_extremes() {
    let floors = |g: &Grid<TileCell>| g.count(|c| c.tile.is_floor());
    let mut g: Grid<TileCell> = Grid::new(12, 9);
    Wfc::new(WfcConfig { rules: WfcRules::simple_dungeon(), floor_weight: 0 }).generate(&mut g, 3);
    assert_eq!(floors(&g), 0);
    let mut g: Grid<TileCell> = Grid::new(12, 9);
    Wfc::new(WfcConfig { rules: WfcRules::simple_dungeon(), floor_weight: CHANCE_ONE }).generate(&mut g, 3);
    assert_eq!(floors(&g), 10 * 7);
    let mut g: Grid<TileCell> = Grid::new(12, 9);
    CellularAutomata::new(CellularConfig { initial_floor_chance: 0, iterations: 0, birth_limit: 5, death_limit: 4 })
        .generate(&mut g, 3);
    assert_eq!(floors(&g), 0);
    let mut g: Grid<TileCell> = Grid::new(12, 9);
    Percolation::new(PercolationConfig { fill_probability: CHANCE_ONE, keep_largest: true }).generate(&mut g, 3);
    assert_eq!(floors(&g), 10 * 7);
    let mut g: Grid<TileCell> = Grid::new(12, 9);
    Voronoi::new(VoronoiConfig { num_points: 4, floor_chance: 0 }).generate(&mut g, 3);
    assert_eq!(floors(&g), 0);
}
