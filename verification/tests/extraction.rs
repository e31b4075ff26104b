use terrain_forge::semantic::{ConnectivityGraph, ConnectivityType, Region};
use terrain_forge::semantic_visualization::{visualize_region_ids, visualize_regions, VisualizationConfig};
use terrain_forge::visualize_connectivity_graph;
use terrain_forge::semantic_extractor::{
    build_connectivity, classify_regions, extract_regions, find_corner_positions, find_region_center,
};
use terrain_forge::{Grid, Tile};

fn parse(rows: &[&str]) -> Grid<Tile> {
    let h = rows.len();
    let w = rows[0].len();
    let mut g: Grid<Tile> = Grid::new(w, h);
    for (y, row) in rows.iter().enumerate() {
        for (x, ch) in row.chars().enumerate() {
            if ch == '.' {
                g.set(x as i32, y as i32, Tile::Floor);
            }
        }
    }
    g
}

#[test]
fn extract_regions_lists_components_in_order() {
    let g = parse(&["#.#..", "#.#..", "###.#", "..###"]);
    let regions = extract_regions(&g);
    assert_eq!(regions.len(), 3);
    assert_eq!(regions[0].id, 1);
    assert_eq!(regions[0].kind, "Unknown");
    assert_eq!(regions[0].cells, vec![(1, 0), (1, 1)]);
    assert_eq!(regions[1].id, 2);
    assert_eq!(regions[1].cells, vec![(3, 0), (4, 0), (3, 1), (4, 1), (3, 2)]);
    assert_eq!(regions[2].cells, vec![(0, 3), (1, 3)]);
    assert!(regions.iter().all(|r| r.tags.is_empty()));
}

#[test]
fn extract_regions_of_solid_grid_is_empty() {
    let g = parse(&["###", "###"]);
    assert!(extract_regions(&g).is_empty());
}

#[test]
fn classify_regions_uses_first_reached_threshold() {
    let g = parse(&["#.#..", "#.#..", "###.#", "..###"]);
    let mut regions = extract_regions(&g);
    let thresholds = vec![(5, "hall".to_string()), (2, "room".to_string())];
    classify_regions(&mut regions, &thresholds);
    assert_eq!(regions[0].kind, "room");
    assert_eq!(regions[1].kind, "hall");
    assert_eq!(regions[2].kind, "room");
    let big_only = vec![(10, "cavern".to_string())];
    classify_regions(&mut regions, &big_only);
    assert!(regions.iter().all(|r| r.kind == "Unknown"));
    assert_eq!(regions[1].cells.len(), 5);
}

#[test]
fn region_center_is_rounded_mean() {
    let mut r = Region::new(1, "x".to_string());
    assert_eq!(find_region_center(&r), None);
    r.add_cell(1, 1);
    r.add_cell(4, 2);
    r.add_cell(2, 6);
    assert_eq!(find_region_center(&r), Some((2, 3)));
}

#[test]
fn corner_positions_keep_listed_corners() {
    let mut small = Region::new(1, "x".to_string());
    small.add_cell(5, 5);
    small.add_cell(6, 5);
    assert_eq!(find_corner_positions(&small), vec![(5, 5), (6, 5)]);

    let mut block = Region::new(2, "x".to_string());
    for y in 0..2 {
        for x in 0..3 {
            block.add_cell(x, y);
        }
    }
    assert_eq!(find_corner_positions(&block), vec![(0, 0), (2, 0), (0, 1), (2, 1)]);

    // An L shape misses its bounding box's top-right corner.
    let mut ell = Region::new(3, "x".to_string());
    for (x, y) in [(0, 0), (0, 1), (0, 2), (1, 2), (2, 2)] {
        ell.add_cell(x, y);
    }
    assert_eq!(find_corner_positions(&ell), vec![(0, 0), (0, 2), (2, 2)]);
}

#[test]
fn connectivity_links_touching_regions() {
    let mut a = Region::new(1, "a".to_string());
    a.add_cell(0, 0);
    a.add_cell(1, 0);
    let mut b = Region::new(2, "b".to_string());
    b.add_cell(2, 0);
    let mut c = Region::new(3, "c".to_string());
    c.add_cell(3, 1);
    let regions = vec![a, b, c];
    let g = parse(&["....", "...."]);

    let four = build_connectivity(&g, &regions, ConnectivityType::FourConnected);
    assert_eq!(four.regions, vec![1, 2, 3]);
    assert_eq!(four.edges, vec![(1, 2)]);

    let eight = build_connectivity(&g, &regions, ConnectivityType::EightConnected);
    assert_eq!(eight.regions, vec![1, 2, 3]);
    assert_eq!(eight.edges, vec![(1, 2), (2, 3)]);
}

#[test]
fn connectivity_of_extracted_regions_has_no_edges() {
    // Floor regions are separated by walls, so no two of them touch.
    let g = parse(&["#.#..", "#.#..", "###.#", "..###"]);
    let regions = extract_regions(&g);
    let graph = build_connectivity(&g, &regions, ConnectivityType::FourConnected);
    assert_eq!(graph.regions, vec![1, 2, 3]);
    assert!(graph.edges.is_empty());
}

#[test]
fn region_map_shows_kinds_ids_and_floor() {
    let g = parse(&["#..#", "#..#", "...."]);
    let mut hall = Region::new(12, "Hall".to_string());
    hall.add_cell(1, 0);
    hall.add_cell(2, 0);
    let mut odd = Region::new(3, "Vault".to_string());
    odd.add_cell(1, 1);
    let regions = vec![hall, odd];
    let config = VisualizationConfig::default();
    assert_eq!(visualize_regions(&g, &regions, &config), "#HH#\n#?.#\n....\n");
    assert_eq!(visualize_region_ids(&g, &regions), "#22#\n#3.#\n....\n");
}

#[test]
fn region_map_later_region_wins() {
    let g = parse(&[".."]);
    let mut a = Region::new(1, "Room".to_string());
    a.add_cell(0, 0);
    a.add_cell(1, 0);
    let mut b = Region::new(2, "Room".to_string());
    b.add_cell(1, 0);
    assert_eq!(visualize_region_ids(&g, &vec![a, b]), "12\n");
}

#[test]
fn connectivity_graph_text() {
    let mut g = ConnectivityGraph::new();
    g.add_region(1);
    g.add_region(2);
    g.add_region(3);
    g.add_edge(1, 2);
    g.add_edge(2, 3);
    let expected = "=== CONNECTIVITY GRAPH ===\nRegions: [1, 2, 3]\nEdges: [(1, 2), (2, 3)]\n\n\
=== ADJACENCY LIST ===\nRegion 1: connected to [2]\nRegion 2: connected to [1, 3]\nRegion 3: connected to [2]\n\n\
=== GRAPH STRUCTURE ===\n1 -- 2\n2 -- 3\n";
    assert_eq!(visualize_connectivity_graph(&g), expected);
}

#[test]
fn connectivity_graph_text_empty_and_large_ids() {
    let empty = ConnectivityGraph::new();
    assert_eq!(
        visualize_connectivity_graph(&empty),
        "=== CONNECTIVITY GRAPH ===\nRegions: []\nEdges: []\n\n=== ADJACENCY LIST ===\n\n=== GRAPH STRUCTURE ===\n"
    );
    let mut g = ConnectivityGraph::new();
    g.add_edge(4_294_967_295, 10);
    let text = visualize_connectivity_graph(&g);
    assert!(text.contains("Region 4294967295: connected to [10]\nRegion 10: connected to [4294967295]\n"));
    assert!(text.ends_with("4294967295 -- 10\n"));
}
