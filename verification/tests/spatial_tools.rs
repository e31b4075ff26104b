use terrain_forge::semantic::Masks;
use terrain_forge::semantic_visualization::{visualize_masks, VisualizationConfig};
use terrain_forge::spatial::{morphological_transform, DistanceMetric, FlowField, MorphologyOp, StructuringElement};
use terrain_forge::structures::WfcRules;
use terrain_forge::{Grid, Tile, TileCell};

fn parse(rows: &[&str]) -> Grid<Tile> {
    let h = rows.len();
    let w = rows[0].len();
    let mut g: Grid<Tile> = Grid::new(w, h);
    for (y, row) in rows.iter().enumerate() {
        for (x, ch) in row.chars().enumerate() {
            if ch == '.' {
                g.set(x as i32, y as i32, Tile::Floor);
            }
        }
    }
    g
}

fn render(g: &Grid<Tile>) -> Vec<String> {
    let mut out = Vec::new();
    for y in 0..g.height() {
        let mut row = String::new();
        for x in 0..g.width() {
            row.push(if g.cell(x, y).is_floor() { '.' } else { '#' });
        }
        out.push(row);
    }
    out
}

const BLOCK: [&str; 5] = ["#####", "#...#", "#...#", "#...#", "#####"];
const DOT: [&str; 5] = ["#####", "#####", "##.##", "#####", "#####"];
const PLUS: [&str; 5] = ["#####", "##.##", "#...#", "##.##", "#####"];

#[test]
fn elements_shapes() {
    let r = StructuringElement::rectangle(3, 2);
    assert_eq!((r.width(), r.height()), (3, 2));
    assert!(r.get(2, 1));
    let c = StructuringElement::circle(1);
    assert_eq!((c.width(), c.height()), (3, 3));
    assert!(c.get(1, 0) && c.get(0, 1) && c.get(1, 1) && c.get(2, 1) && c.get(1, 2));
    assert!(!c.get(0, 0) && !c.get(2, 2));
    let c2 = StructuringElement::circle(2);
    assert!(!c2.get(0, 0));
    assert!(c2.get(0, 2));
    assert!(c2.get(1, 1));
    let x = StructuringElement::cross(4);
    assert_eq!((x.width(), x.height()), (4, 4));
    assert!(x.get(0, 2) && x.get(3, 2) && x.get(2, 0) && x.get(2, 3));
    assert!(!x.get(1, 1) && !x.get(3, 3));
}

#[test]
fn erosion_with_cross() {
    let g = parse(&BLOCK);
    let r = morphological_transform(&g, MorphologyOp::Erosion, &StructuringElement::cross(3));
    assert_eq!(render(&r), DOT.to_vec());
}

#[test]
fn erosion_with_rectangle() {
    let g = parse(&BLOCK);
    let r = morphological_transform(&g, MorphologyOp::Erosion, &StructuringElement::rectangle(3, 3));
    assert_eq!(render(&r), DOT.to_vec());
}

#[test]
fn dilation_with_cross() {
    let g = parse(&DOT);
    let r = morphological_transform(&g, MorphologyOp::Dilation, &StructuringElement::cross(3));
    assert_eq!(render(&r), PLUS.to_vec());
}

#[test]
fn opening_and_closing_with_cross() {
    let e = StructuringElement::cross(3);
    let opened = morphological_transform(&parse(&BLOCK), MorphologyOp::Opening, &e);
    assert_eq!(render(&opened), PLUS.to_vec());
    let closed = morphological_transform(&parse(&DOT), MorphologyOp::Closing, &e);
    assert_eq!(render(&closed), DOT.to_vec());
}

#[test]
fn morphology_on_tile_cells() {
    let mut g: Grid<TileCell> = Grid::new(3, 1);
    g.set(0, 0, TileCell::floor());
    g.set(1, 0, TileCell::floor());
    let r = morphological_transform(&g, MorphologyOp::Erosion, &StructuringElement::rectangle(2, 1));
    assert_eq!(render(&r), vec!["#.#"]);
}

#[test]
fn flow_field_directions() {
    let mut f = FlowField::new(3, 2);
    assert_eq!((f.width(), f.height()), (3, 2));
    assert_eq!(f.get_direction(2, 1), (0, 0));
    f.set_direction(2, 1, (1, -1));
    assert_eq!(f.get_direction(2, 1), (1, -1));
    assert_eq!(f.get_direction(1, 1), (0, 0));
}

#[test]
fn distance_metric_variants() {
    assert_ne!(DistanceMetric::Euclidean, DistanceMetric::Manhattan);
    assert_eq!(DistanceMetric::Chebyshev, DistanceMetric::Chebyshev);
}

#[test]
fn wfc_simple_dungeon_rules() {
    let r = WfcRules::simple_dungeon();
    assert_eq!(r.adjacencies, vec![vec![0, 1], vec![0, 1]]);
}

#[test]
fn visualization_defaults() {
    let c = VisualizationConfig::default();
    assert_eq!(c.region_chars.get("Room"), Some(&'R'));
    assert_eq!(c.region_chars.get("Corridor"), Some(&'-'));
    assert_eq!(c.region_chars.get("Closet"), Some(&'c'));
    assert_eq!(c.region_chars.len(), 10);
    assert_eq!((c.default_region_char, c.wall_char, c.floor_char), ('?', '#', '.'));
    assert!(!c.show_region_ids && !c.show_connectivity);
}

#[test]
fn masks_as_text() {
    let g = parse(&[".#"]);
    let m = Masks::from_tiles(&g);
    assert_eq!(visualize_masks(&g, &m), "=== WALKABLE MASK ===\n.#\n\n=== NO-SPAWN MASK ===\n..\n");
    let small = Masks::new(1, 1);
    assert_eq!(visualize_masks(&g, &small), "=== WALKABLE MASK ===\n#?\n\n=== NO-SPAWN MASK ===\n.?\n");
}
