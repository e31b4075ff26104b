use terrain_forge::effects::{
    bridge_gaps, carve_path, clear_rect, close, connect_regions_spanning, dijkstra_map, dilate, distance_transform, edge_detect, erode,
    find_chokepoints, gaussian_blur, gradient_blend, invert, label_regions, median_filter, mirror, open,
    remove_dead_ends, resize, rotate, scatter,
};
use terrain_forge::{Grid, Rng, Tile};

/// Builds a grid from rows of `#` (wall) and `.` (floor).
fn parse(rows: &[&str]) -> Grid<Tile> {
    let h = rows.len();
    let w = rows[0].len();
    let mut g: Grid<Tile> = Grid::new(w, h);
    for (y, row) in rows.iter().enumerate() {
        for (x, ch) in row.chars().enumerate() {
            let t = if ch == '.' { Tile::Floor } else { Tile::Wall };
            g.set(x as i32, y as i32, t);
        }
    }
    g
}

/// Renders a grid as rows of `#` and `.`.
fn render(g: &Grid<Tile>) -> Vec<String> {
    let mut out = Vec::new();
    for y in 0..g.height() {
        let mut row = String::new();
        for x in 0..g.width() {
            row.push(if g.cell(x, y).is_floor() { '.' } else { '#' });
        }
        out.push(row);
    }
    out
}

fn floors(g: &Grid<Tile>) -> usize {
    g.count(|t| t.is_floor())
}

#[test]
fn invert_flips_every_cell() {
    let mut g = parse(&["#.#", "..#"]);
    invert(&mut g);
    assert_eq!(render(&g), vec![".#.", "##."]);
}

#[test]
fn invert_twice_restores() {
    let before = parse(&["#..#", ".#.#", "...."]);
    let mut g = parse(&["#..#", ".#.#", "...."]);
    invert(&mut g);
    invert(&mut g);
    assert_eq!(render(&g), render(&before));
}

#[test]
fn mirror_horizontal_copies_right_half() {
    let mut g = parse(&["#.#."]);
    mirror(&mut g, true, false);
    assert_eq!(render(&g), vec![".##."]);
}

#[test]
fn mirror_vertical_copies_bottom_half() {
    let mut g = parse(&["#.", "..", ".#"]);
    mirror(&mut g, false, true);
    assert_eq!(render(&g), vec![".#", "..", ".#"]);
}

#[test]
fn rotate_half_turn() {
    let mut g = parse(&["#..", "..."]);
    rotate(&mut g, 180);
    assert_eq!(render(&g), vec!["...", "..#"]);
    rotate(&mut g, 180);
    assert_eq!(render(&g), vec!["#..", "..."]);
}

#[test]
fn rotate_quarter_turn_square() {
    let mut g = parse(&[".#", "##"]);
    rotate(&mut g, 90);
    assert_eq!(render(&g), vec!["#.", "##"]);
    rotate(&mut g, 270);
    assert_eq!(render(&g), vec![".#", "##"]);
}

#[test]
fn rotate_quarter_turn_non_square_is_identity() {
    let mut g = parse(&[".##"]);
    rotate(&mut g, 90);
    assert_eq!(render(&g), vec![".##"]);
}

#[test]
fn resize_pads_and_crops() {
    let mut g = parse(&[".#", "#."]);
    resize(&mut g, 3, 1, Tile::Floor);
    assert_eq!(g.width(), 3);
    assert_eq!(g.height(), 1);
    assert_eq!(render(&g), vec![".#."]);
}

#[test]
fn erode_keeps_only_fully_surrounded_floor() {
    let mut g = parse(&["#####", "#...#", "#...#", "#...#", "#####"]);
    erode(&mut g, 1);
    assert_eq!(render(&g), vec!["#####", "#####", "##.##", "#####", "#####"]);
}

#[test]
fn dilate_grows_a_plus() {
    let mut g = parse(&["#####", "#####", "##.##", "#####", "#####"]);
    dilate(&mut g, 1);
    assert_eq!(render(&g), vec!["#####", "##.##", "#...#", "##.##", "#####"]);
}

#[test]
fn open_erodes_then_dilates() {
    let mut g = parse(&["#####", "#...#", "#...#", "#...#", "#####"]);
    open(&mut g, 1);
    assert_eq!(render(&g), vec!["#####", "##.##", "#...#", "##.##", "#####"]);
}

#[test]
fn close_dilates_then_erodes() {
    let mut g = parse(&["#####", "#####", "##.##", "#####", "#####"]);
    close(&mut g, 1);
    assert_eq!(render(&g), vec!["#####", "#####", "##.##", "#####", "#####"]);
}

#[test]
fn erode_zero_iterations_is_identity() {
    let mut g = parse(&["#.#", "...", "#.#"]);
    erode(&mut g, 0);
    assert_eq!(render(&g), vec!["#.#", "...", "#.#"]);
}

#[test]
fn gaussian_blur_majority_of_window() {
    let mut g = parse(&["#####", "#...#", "#...#", "#...#", "#####"]);
    gaussian_blur(&mut g, 1);
    assert_eq!(render(&g), vec!["#####", "##.##", "#...#", "##.##", "#####"]);
}

#[test]
fn gaussian_blur_repeats_first_column_and_row() {
    let mut g = parse(&["..###", "..###", "..###", "..###", "..###"]);
    gaussian_blur(&mut g, 2);
    assert_eq!(render(&g), vec!["..###", "..###", "..###", ".####", "..###"]);
}

#[test]
fn median_filter_strict_majority() {
    let mut g = parse(&["#####", "#...#", "#...#", "#...#", "#####"]);
    median_filter(&mut g, 1);
    assert_eq!(render(&g), vec!["#####", "##.##", "#...#", "##.##", "#####"]);
}

#[test]
fn median_filter_radius_zero_keeps_cells() {
    let mut g = parse(&["#.", ".#"]);
    median_filter(&mut g, 0);
    assert_eq!(render(&g), vec!["#.", ".#"]);
}

#[test]
fn distance_transform_counts_steps_to_wall() {
    let g = parse(&["#...."]);
    let d = distance_transform(&g);
    assert_eq!(d, vec![vec![0, 1, 2, 3, 4]]);
}

#[test]
fn distance_transform_is_taxicab() {
    let g = parse(&["#...", "....", "...#"]);
    let d = distance_transform(&g);
    assert_eq!(d, vec![vec![0, 1, 2, 2], vec![1, 2, 2, 1], vec![2, 2, 1, 0]]);
}

#[test]
fn distance_transform_without_walls_is_unreachable() {
    let g = parse(&["..", ".."]);
    let d = distance_transform(&g);
    assert_eq!(d, vec![vec![u32::MAX; 2]; 2]);
}

#[test]
fn dijkstra_map_walks_over_floor() {
    let g = parse(&["..#..", "....."]);
    let d = dijkstra_map(&g, &[(0, 0)]);
    assert_eq!(d, vec![vec![0, 1, u32::MAX, 5, 6], vec![1, 2, 3, 4, 5]]);
}

#[test]
fn dijkstra_map_ignores_bad_sources() {
    let g = parse(&["..#"]);
    let d = dijkstra_map(&g, &[(9, 9), (2, 0)]);
    assert_eq!(d, vec![vec![u32::MAX; 3]]);
}

#[test]
fn dijkstra_map_several_sources() {
    let g = parse(&["....."]);
    let d = dijkstra_map(&g, &[(0, 0), (4, 0), (0, 0)]);
    assert_eq!(d, vec![vec![0, 1, 2, 1, 0]]);
}

#[test]
fn remove_dead_ends_sees_earlier_changes() {
    let mut g = parse(&["#####", "#####", "#...#", "#####", "#####"]);
    remove_dead_ends(&mut g, 1);
    assert_eq!(floors(&g), 0);
}

#[test]
fn remove_dead_ends_keeps_loops() {
    let mut g = parse(&["#####", "#...#", "#.#.#", "#...#", "#####"]);
    remove_dead_ends(&mut g, 5);
    assert_eq!(render(&g), vec!["#####", "#...#", "#.#.#", "#...#", "#####"]);
}

#[test]
fn remove_dead_ends_trims_a_spur() {
    let mut g = parse(&["#######", "#...#.#", "#.#.#.#", "#.....#", "#######"]);
    remove_dead_ends(&mut g, 10);
    assert_eq!(render(&g), vec!["#######", "#...###", "#.#.###", "#...###", "#######"]);
}

#[test]
fn find_chokepoints_in_a_corridor() {
    let g = parse(&["#####", "#...#", "#####"]);
    assert_eq!(find_chokepoints(&g), vec![(2, 1)]);
}

#[test]
fn find_chokepoints_none_in_open_room() {
    let g = parse(&["####", "#..#", "#..#", "####"]);
    assert!(find_chokepoints(&g).is_empty());
}

#[test]
fn find_chokepoints_at_a_door() {
    let g = parse(&["#######", "#..#..#", "#.....#", "#..#..#", "#######"]);
    assert_eq!(find_chokepoints(&g), vec![(2, 2), (3, 2), (4, 2)]);
}

#[test]
fn find_chokepoints_along_a_path() {
    let g = parse(&["#######", "#.....#", "#.###.#", "#.#...#", "#######"]);
    assert_eq!(
        find_chokepoints(&g),
        vec![(1, 1), (2, 1), (3, 1), (4, 1), (5, 1), (1, 2), (5, 2), (4, 3), (5, 3)]
    );
}

#[test]
fn label_regions_numbers_in_row_major_order() {
    let g = parse(&[".#.", "##.", "..#"]);
    let (labels, count) = label_regions(&g);
    assert_eq!(count, 3);
    assert_eq!(labels, vec![1, 0, 2, 0, 0, 2, 3, 3, 0]);
}

#[test]
fn bridge_gaps_joins_close_regions() {
    let mut g = parse(&["#####", "#.#.#", "#####"]);
    bridge_gaps(&mut g, 2);
    assert_eq!(render(&g), vec!["#####", "#...#", "#####"]);
}

#[test]
fn bridge_gaps_leaves_far_regions() {
    let mut g = parse(&["######", "#.##.#", "######"]);
    bridge_gaps(&mut g, 2);
    assert_eq!(render(&g), vec!["######", "#.##.#", "######"]);
}

#[test]
fn carve_path_with_radius() {
    let mut g = parse(&["#####", "#####", "#####"]);
    carve_path(&mut g, &[(2, 1)], 1);
    assert_eq!(render(&g), vec!["##.##", "#...#", "##.##"]);
}

#[test]
fn carve_path_radius_zero() {
    let mut g = parse(&["###", "###"]);
    carve_path(&mut g, &[(0, 0), (2, 1)], 0);
    assert_eq!(render(&g), vec![".##", "##."]);
}

#[test]
fn clear_rect_centred() {
    let mut g = parse(&["#####", "#####", "#####", "#####"]);
    clear_rect(&mut g, (2, 2), 3, 2);
    assert_eq!(render(&g), vec!["#####", "#...#", "#...#", "#####"]);
}

#[test]
fn clear_rect_empty_size_does_nothing() {
    let mut g = parse(&["###", "###"]);
    clear_rect(&mut g, (1, 1), 0, 2);
    assert_eq!(render(&g), vec!["###", "###"]);
}

#[test]
fn edge_detect_lists_boundary_cells() {
    let g = parse(&["#####", "#...#", "#...#", "#...#", "#####"]);
    let edges = edge_detect(&g);
    assert_eq!(edges, vec![(1, 1), (2, 1), (3, 1), (1, 2), (3, 2), (1, 3), (2, 3), (3, 3)]);
}

#[test]
fn gradient_blend_switches_past_the_middle() {
    let base = parse(&["....", "...."]);
    let overlay = parse(&["####", "####"]);
    let mut out = parse(&["....", "...."]);
    gradient_blend(&base, &overlay, &mut out, true);
    assert_eq!(render(&out), vec!["...#", "...#"]);
    let mut out2 = parse(&["....", "...."]);
    gradient_blend(&base, &overlay, &mut out2, false);
    assert_eq!(render(&out2), vec!["....", "...."]);
}

#[test]
fn connect_regions_spanning_opens_the_only_connector() {
    let mut g = parse(&["#####", "#.#.#", "#####"]);
    let mut rng = Rng::new(42);
    let made = connect_regions_spanning(&mut g, 0, &mut rng);
    assert_eq!(made, vec![(2, 1)]);
    assert_eq!(render(&g), vec!["#####", "#...#", "#####"]);
}

#[test]
fn connect_regions_spanning_joins_a_chain() {
    let mut g = parse(&["#######", "#.#.#.#", "#######"]);
    let mut rng = Rng::new(7);
    let mut made = connect_regions_spanning(&mut g, 0, &mut rng);
    made.sort();
    assert_eq!(made, vec![(2, 1), (4, 1)]);
    assert_eq!(render(&g), vec!["#######", "#.....#", "#######"]);
}

#[test]
fn connect_regions_spanning_single_region_does_nothing() {
    let mut g = parse(&["####", "#..#", "####"]);
    let mut rng = Rng::new(1);
    assert!(connect_regions_spanning(&mut g, 1 << 53, &mut rng).is_empty());
    assert_eq!(render(&g), vec!["####", "#..#", "####"]);
}

#[test]
fn shuffle_keeps_the_entries() {
    let mut rng = Rng::new(3);
    let mut v = vec![1, 2, 3, 4, 5, 6];
    rng.shuffle(&mut v);
    let mut sorted = v.clone();
    sorted.sort();
    assert_eq!(sorted, vec![1, 2, 3, 4, 5, 6]);
    let mut a = Rng::new(3);
    let mut w = vec![1, 2, 3, 4, 5, 6];
    a.shuffle(&mut w);
    assert_eq!(v, w);
}

#[test]
fn chance_below_extremes() {
    let mut rng = Rng::new(5);
    for _ in 0..20 {
        assert!(!rng.chance_below(0));
        assert!(rng.chance_below(1 << 53));
    }
}

#[test]
fn scatter_extremes_and_border() {
    let mut none: Grid<Tile> = Grid::new(6, 5);
    scatter(&mut none, 0, 3);
    assert_eq!(none.count(|t| t.is_floor()), 0);
    let mut all: Grid<Tile> = Grid::new(6, 5);
    scatter(&mut all, 1 << 53, 3);
    assert_eq!(all.count(|t| t.is_floor()), 4 * 3);
    let mut half: Grid<Tile> = Grid::new(30, 30);
    scatter(&mut half, 1 << 52, 9);
    let n = half.count(|t| t.is_floor());
    assert!(n > 300 && n < 500);
    for x in 0..30 {
        assert!(half.cell(x, 0).is_wall());
        assert!(half.cell(x, 29).is_wall());
    }
}

#[test]
fn connect_regions_spanning_makes_one_region() {
    for seed in 0..12u64 {
        let mut g = parse(&["#########", "#.#.#.#.#", "#########"]);
        let mut rng = Rng::new(seed);
        let made = connect_regions_spanning(&mut g, 0, &mut rng);
        assert_eq!(made.len(), 3);
        assert_eq!(render(&g), vec!["#########", "#.......#", "#########"]);
    }
}

#[test]
fn dilate_is_inverted_erode() {
    let rows = ["######", "#..#.#", "#.##.#", "#....#", "######"];
    for n in 0..3 {
        let mut a = parse(&rows);
        dilate(&mut a, n);
        let mut b = parse(&rows);
        invert(&mut b);
        erode(&mut b, n);
        invert(&mut b);
        assert_eq!(render(&a), render(&b));
    }
}
