use terrain_forge::ops::parse_marker_type;
use terrain_forge::semantic::{
    marker_positions,
    ConnectivityGraph, MarkerType, Masks, Region, SemanticRequirements, VerticalConnectivity,
};
use terrain_forge::{Grid, Tile};

fn parse(rows: &[&str]) -> Grid<Tile> {
    let h = rows.len();
    let w = rows[0].len();
    let mut g: Grid<Tile> = Grid::new(w, h);
    for (y, row) in rows.iter().enumerate() {
        for (x, ch) in row.chars().enumerate() {
            if ch == '.' {
                g.set(x as i32, y as i32, Tile::Floor);
            }
        }
    }
    g
}

#[test]
fn region_collects_cells_and_tags() {
    let mut r = Region::new(7, "room".to_string());
    assert_eq!(r.area(), 0);
    r.add_cell(1, 2);
    r.add_cell(3, 4);
    r.add_tag("lit".to_string());
    assert_eq!(r.id, 7);
    assert_eq!(r.kind, "room");
    assert_eq!(r.cells, vec![(1, 2), (3, 4)]);
    assert_eq!(r.tags, vec!["lit".to_string()]);
    assert_eq!(r.area(), 2);
}

#[test]
fn marker_categories() {
    assert_eq!(MarkerType::Spawn.category(), "spawn");
    assert_eq!(MarkerType::Exit.category(), "spawn");
    assert_eq!(MarkerType::QuestObjective { priority: 1 }.category(), "quest");
    assert_eq!(MarkerType::QuestStart.category(), "quest");
    assert_eq!(MarkerType::QuestEnd.category(), "quest");
    assert_eq!(MarkerType::LootTier { tier: 3 }.category(), "loot");
    assert_eq!(MarkerType::Treasure.category(), "loot");
    assert_eq!(MarkerType::EncounterZone { difficulty: 2 }.category(), "encounter");
    assert_eq!(MarkerType::BossRoom.category(), "encounter");
    assert_eq!(MarkerType::SafeZone.category(), "encounter");
    assert_eq!(MarkerType::Custom("x".to_string()).category(), "custom");
}

#[test]
fn masks_new_and_from_tiles() {
    let m = Masks::new(3, 2);
    assert_eq!(m.walkable, vec![vec![false; 3]; 2]);
    assert_eq!(m.no_spawn, vec![vec![false; 3]; 2]);
    assert_eq!((m.width, m.height), (3, 2));
    let g = parse(&[".#.", "..#"]);
    let m = Masks::from_tiles(&g);
    assert_eq!(m.walkable, vec![vec![true, false, true], vec![true, true, false]]);
    assert_eq!(m.no_spawn, vec![vec![false; 3]; 2]);
}

#[test]
fn connectivity_graph_deduplicates() {
    let mut g = ConnectivityGraph::new();
    g.add_region(3);
    g.add_region(3);
    assert_eq!(g.regions, vec![3]);
    g.add_edge(1, 2);
    g.add_edge(2, 1);
    g.add_edge(1, 2);
    g.add_edge(2, 3);
    assert_eq!(g.regions, vec![3, 1, 2]);
    assert_eq!(g.edges, vec![(1, 2), (2, 3)]);
}

#[test]
fn stair_candidates_need_clear_floor_on_both_levels() {
    // With a clearance of one only the centre has a 3 by 3 floor site on
    // both levels, and the walls around that site support the stair.
    let lower = parse(&["#####", "#...#", "#...#", "#...#", "#####"]);
    let upper = parse(&["#####", "#...#", "#...#", "#...#", "#####"]);
    let mut v = VerticalConnectivity::new();
    v.analyze_stair_candidates(&[lower, upper], 1);
    assert_eq!(v.stair_candidates, vec![(2, 2, 0, 1)]);
    // A site whose surroundings are all floor has no wall to rest on.
    let open_lower = parse(&[".....", ".....", ".....", ".....", "....."]);
    let open_upper = parse(&[".....", ".....", ".....", ".....", "....."]);
    v.analyze_stair_candidates(&[open_lower, open_upper], 1);
    assert_eq!(v.stair_candidates, vec![]);
    // Without clearance: floor on both levels and a wall next to it below.
    let lower = parse(&["#####", "#...#", "#...#", "#...#", "#####"]);
    let upper = parse(&["#####", "#...#", "#...#", "#..##", "#####"]);
    v.analyze_stair_candidates(&[lower, upper], 0);
    assert_eq!(v.stair_candidates, vec![(1, 1, 0, 1), (2, 1, 0, 1), (3, 1, 0, 1), (1, 2, 0, 1), (3, 2, 0, 1), (1, 3, 0, 1), (2, 3, 0, 1)]);
}

#[test]
fn stair_candidates_without_clearance() {
    let a = parse(&["..", "#."]);
    let b = parse(&[".#", ".."]);
    let c = parse(&["..", ".."]);
    let mut v = VerticalConnectivity::new();
    v.analyze_stair_candidates(&[a, b, c], 0);
    assert_eq!(
        v.stair_candidates,
        vec![(0, 0, 0, 1), (1, 1, 0, 1), (0, 0, 1, 2), (1, 1, 1, 2)]
    );
    v.place_stairs(2);
    assert_eq!(v.stairs, vec![(0, 0, 0, 1), (1, 1, 0, 1), (0, 0, 1, 2), (1, 1, 1, 2)]);
    v.place_stairs(1);
    assert_eq!(v.stairs, vec![(0, 0, 0, 1), (0, 0, 1, 2)]);
    v.place_stairs(0);
    assert!(v.stairs.is_empty());
}

#[test]
fn stair_candidates_single_floor() {
    let mut v = VerticalConnectivity::new();
    v.analyze_stair_candidates(&[parse(&["..", ".."])], 0);
    assert!(v.stair_candidates.is_empty());
    v.analyze_stair_candidates(&[], 0);
    assert!(v.stair_candidates.is_empty());
}

#[test]
fn place_stairs_groups_by_floor_pair() {
    let mut v = VerticalConnectivity::new();
    v.stair_candidates = vec![(1, 1, 0, 1), (5, 5, 1, 2), (2, 2, 0, 1), (6, 6, 1, 2), (3, 3, 0, 1)];
    v.place_stairs(2);
    assert_eq!(v.stairs, vec![(1, 1, 0, 1), (2, 2, 0, 1), (5, 5, 1, 2), (6, 6, 1, 2)]);
}

#[test]
fn requirements_presets() {
    let none = SemanticRequirements::none();
    assert!(none.min_regions.is_empty());
    assert!(none.max_regions.is_empty());
    assert!(none.required_connections.is_empty());
    assert!(none.min_walkable_area.is_none());
    assert!(none.required_markers.is_empty());
    let d = SemanticRequirements::basic_dungeon();
    assert_eq!(d.min_regions, vec![("room".to_string(), 3)]);
    assert_eq!(d.required_connections, vec![("room".to_string(), "corridor".to_string())]);
    assert_eq!(d.required_markers, vec![(MarkerType::Spawn, 1), (MarkerType::Exit, 1)]);
    assert!(d.max_regions.is_empty());
}

#[test]
fn requirements_validate_counts() {
    let req = SemanticRequirements::basic_dungeon();
    let rooms: Vec<Region> = (0..3).map(|i| Region::new(i, "room".to_string())).collect();
    let markers = vec![MarkerType::Exit, MarkerType::Spawn];
    assert!(req.validate(&rooms, &markers));
    assert!(!req.validate(&rooms[..2], &markers));
    assert!(!req.validate(&rooms, &[MarkerType::Spawn, MarkerType::Spawn]));
    let mut custom = SemanticRequirements::none();
    custom.required_markers.push((MarkerType::Custom("altar".to_string()), 2));
    let altars = vec![MarkerType::Custom("altar".to_string()), MarkerType::Custom("altar".to_string())];
    assert!(custom.validate(&[], &altars));
    assert!(!custom.validate(&[], &altars[..1]));
    assert!(SemanticRequirements::none().validate(&[], &[]));
}

#[test]
fn marker_type_tags() {
    assert_eq!(MarkerType::Spawn.tag(), "spawn");
    assert_eq!(MarkerType::QuestObjective { priority: 7 }.tag(), "quest_objective_7");
    assert_eq!(MarkerType::LootTier { tier: 255 }.tag(), "loot_tier_255");
    assert_eq!(MarkerType::EncounterZone { difficulty: 10 }.tag(), "encounter_10");
    assert_eq!(MarkerType::SafeZone.tag(), "safe_zone");
    assert_eq!(MarkerType::Custom("door".to_string()).tag(), "door");
}

#[test]
fn marker_names_parse() {
    assert_eq!(parse_marker_type("spawn"), MarkerType::Spawn);
    assert_eq!(parse_marker_type("  Player_Start\t"), MarkerType::Custom("PlayerStart".to_string()));
    assert_eq!(parse_marker_type("EXIT"), MarkerType::Custom("Exit".to_string()));
    assert_eq!(parse_marker_type("loot"), MarkerType::Custom("Treasure".to_string()));
    assert_eq!(parse_marker_type("Boss"), MarkerType::BossRoom);
    assert_eq!(parse_marker_type("safezone"), MarkerType::SafeZone);
    assert_eq!(parse_marker_type("quest_objective_3"), MarkerType::QuestObjective { priority: 3 });
    assert_eq!(parse_marker_type("quest_objective"), MarkerType::QuestObjective { priority: 1 });
    assert_eq!(parse_marker_type("loot_tier_+7"), MarkerType::LootTier { tier: 7 });
    assert_eq!(parse_marker_type("loot_tier_300"), MarkerType::LootTier { tier: 1 });
    assert_eq!(parse_marker_type("Encounter_12"), MarkerType::EncounterZone { difficulty: 12 });
    assert_eq!(parse_marker_type("encounter_"), MarkerType::EncounterZone { difficulty: 1 });
    assert_eq!(parse_marker_type("\u{3000}Door Key "), MarkerType::Custom("Door Key".to_string()));
}

#[test]
fn marker_positions_in_marker_order() {
    let markers = vec![
        (MarkerType::Spawn, (1, 2)),
        (MarkerType::Custom("Exit".to_string()), (3, 4)),
        (MarkerType::Spawn, (5, 6)),
    ];
    assert_eq!(marker_positions(&markers, &MarkerType::Spawn), vec![(1, 2), (5, 6)]);
    assert_eq!(marker_positions(&markers, &MarkerType::Custom("Exit".to_string())), vec![(3, 4)]);
    assert!(marker_positions(&markers, &MarkerType::BossRoom).is_empty());
}
