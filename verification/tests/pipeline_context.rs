use terrain_forge::ops::{combine, CombineMode, OpError};
use terrain_forge::pipeline::{
    check_limits, connected_holds, floor_count_within, region_count_within, substitute_string, Keyed, ParameterMap, PipelineContext, PipelineOperation, StageResult, StringMap,
};
use terrain_forge::{Error, Grid, Tile};

fn parse(rows: &[&str]) -> Grid<Tile> {
    let h = rows.len();
    let w = rows[0].len();
    let mut g: Grid<Tile> = Grid::new(w, h);
    for (y, row) in rows.iter().enumerate() {
        for (x, ch) in row.chars().enumerate() {
            if ch == '.' {
                g.set(x as i32, y as i32, Tile::Floor);
            }
        }
    }
    g
}

fn render(g: &Grid<Tile>) -> Vec<String> {
    let mut out = Vec::new();
    for y in 0..g.height() {
        let mut row = String::new();
        for x in 0..g.width() {
            row.push(if g.cell(x, y).is_floor() { '.' } else { '#' });
        }
        out.push(row);
    }
    out
}

#[test]
fn keyed_insert_get_and_replace() {
    let mut m: StringMap = Keyed::new();
    assert_eq!(m.len(), 0);
    assert!(m.get("a").is_none());
    m.insert("a", "1".to_string());
    m.insert("b", "2".to_string());
    m.insert("a", "3".to_string());
    assert_eq!(m.get("a").map(|s| s.as_str()), Some("3"));
    assert_eq!(m.get("b").map(|s| s.as_str()), Some("2"));
    assert_eq!(m.len(), 2);
}

#[test]
fn keyed_extend_prefers_other() {
    let mut m: StringMap = Keyed::new();
    m.insert("a", "1".to_string());
    m.insert("b", "2".to_string());
    let mut o: StringMap = Keyed::new();
    o.insert("b", "9".to_string());
    o.insert("c", "8".to_string());
    m.extend(&o);
    assert_eq!(m.get("a").map(|s| s.as_str()), Some("1"));
    assert_eq!(m.get("b").map(|s| s.as_str()), Some("9"));
    assert_eq!(m.get("c").map(|s| s.as_str()), Some("8"));
}

#[test]
fn context_parameters_read_back() {
    let mut c = PipelineContext::new();
    assert!(c.get_parameter("quality").is_none());
    c.set_parameter("quality", "good");
    c.set_parameter("size", "large");
    c.set_parameter("quality", "needs_work");
    assert_eq!(c.get_parameter("quality").map(|s| s.as_str()), Some("needs_work"));
    assert_eq!(c.get_parameter("size").map(|s| s.as_str()), Some("large"));
}

#[test]
fn context_history_and_iterations() {
    let mut c = PipelineContext::new();
    assert!(c.execution_history().is_empty());
    c.log_execution("bsp");
    c.log_execution("erode");
    assert_eq!(c.execution_history(), &["bsp".to_string(), "erode".to_string()]);
    assert_eq!(c.iteration_count(), 0);
    c.increment_iteration();
    c.increment_iteration();
    assert_eq!(c.iteration_count(), 2);
}

#[test]
fn context_stores_grids() {
    let mut c = PipelineContext::new();
    c.store_grid("base", parse(&[".#"]));
    assert!(c.get_grid("other").is_none());
    assert_eq!(render(c.get_grid("base").unwrap()), vec![".#"]);
    c.store_grid("base", parse(&["#."]));
    assert_eq!(render(c.get_grid("base").unwrap()), vec!["#."]);
}

#[test]
fn stage_results() {
    let s = StageResult::success();
    assert!(s.success);
    assert!(s.message.is_none());
    assert_eq!(s.output_parameters.len(), 0);
    let m = StageResult::success_with_message("done");
    assert!(m.success);
    assert_eq!(m.message.as_deref(), Some("done"));
    let f = StageResult::failure("broken").with_parameter("reason", "x").with_parameter("reason", "y");
    assert!(!f.success);
    assert_eq!(f.message.as_deref(), Some("broken"));
    assert_eq!(f.output_parameters.get("reason").map(|s| s.as_str()), Some("y"));
    assert_eq!(f.output_parameters.len(), 1);
}

#[test]
fn parameter_map_merges_later_branches_over_earlier() {
    let mut p = ParameterMap::new();
    assert!(p.get_branch("a").is_none());
    let mut a: StringMap = Keyed::new();
    a.insert("k", "from_a".to_string());
    a.insert("only_a", "1".to_string());
    let mut b: StringMap = Keyed::new();
    b.insert("k", "from_b".to_string());
    p.add_branch("a", a);
    p.add_branch("b", b);
    assert_eq!(p.get_branch("a").unwrap().get("only_a").map(|s| s.as_str()), Some("1"));
    let merged = p.merge_all();
    assert_eq!(merged.get("k").map(|s| s.as_str()), Some("from_b"));
    assert_eq!(merged.get("only_a").map(|s| s.as_str()), Some("1"));
    assert_eq!(merged.len(), 2);
}

#[test]
fn pipeline_operation_variants() {
    let op = PipelineOperation::Algorithm { name: "bsp".to_string(), seed: Some(12345) };
    match op {
        PipelineOperation::Algorithm { name, seed } => {
            assert_eq!(name, "bsp");
            assert_eq!(seed, Some(12345));
        }
        _ => panic!("wrong variant"),
    }
}

#[test]
fn combine_modes() {
    let other = parse(&["..##"]);
    let mut g = parse(&[".#.#"]);
    combine(CombineMode::Union, &mut g, &other).unwrap();
    assert_eq!(render(&g), vec!["...#"]);
    let mut g = parse(&[".#.#"]);
    combine(CombineMode::Intersect, &mut g, &other).unwrap();
    assert_eq!(render(&g), vec![".###"]);
    let mut g = parse(&[".#.#"]);
    combine(CombineMode::Mask, &mut g, &other).unwrap();
    assert_eq!(render(&g), vec![".###"]);
    let mut g = parse(&[".#.#"]);
    combine(CombineMode::Difference, &mut g, &other).unwrap();
    assert_eq!(render(&g), vec!["##.#"]);
    let mut g = parse(&[".#.#"]);
    combine(CombineMode::Replace, &mut g, &other).unwrap();
    assert_eq!(render(&g), vec!["..##"]);
}

#[test]
fn combine_over_the_overlap_only() {
    let other = parse(&[".."]);
    let mut g = parse(&["###", "###"]);
    assert!(combine(CombineMode::Replace, &mut g, &other).is_ok());
    assert_eq!(render(&g), vec!["..#", "###"]);
}

#[test]
fn op_error_message() {
    let e = OpError::new("Unknown effect: blur".to_string());
    assert_eq!(e.message(), "Unknown effect: blur");
}

#[test]
fn error_variants() {
    let e = Error::InvalidDimensions { width: 0, height: 3 };
    assert!(matches!(e, Error::InvalidDimensions { width: 0, height: 3 }));
    let g = Error::GenerationFailed("x".to_string());
    assert!(matches!(g, Error::GenerationFailed(_)));
    let c = Error::ConstraintViolation("y".to_string());
    assert!(matches!(c, Error::ConstraintViolation(_)));
}

#[test]
fn string_map_pairs_in_key_order() {
    let mut m = StringMap::new();
    m.insert("b", "2".to_string());
    m.insert("a", "1".to_string());
    m.insert("b", "3".to_string());
    assert_eq!(m.pairs(), vec![("b".to_string(), "3".to_string()), ("a".to_string(), "1".to_string())]);
    assert!(StringMap::new().pairs().is_empty());
}

#[test]
fn placeholders_are_substituted() {
    let params = vec![
        ("room".to_string(), "cave".to_string()),
        ("size".to_string(), "big".to_string()),
    ];
    assert_eq!(substitute_string("{room}_{size}", &params), "cave_big");
    assert_eq!(substitute_string("{room}{room}-{other}", &params), "cavecave-{other}");
    assert_eq!(substitute_string("", &params), "");
    assert_eq!(substitute_string("room", &params), "room");
    let chained = vec![
        ("a".to_string(), "{b}".to_string()),
        ("b".to_string(), "z".to_string()),
    ];
    assert_eq!(substitute_string("[{a}]", &chained), "[z]");
    assert_eq!(substitute_string("{a}", &Vec::new()), "{a}");
}

#[test]
fn limits_include_both_ends() {
    assert!(check_limits(5, Some(5), Some(5)));
    assert!(check_limits(5, None, None));
    assert!(!check_limits(4, Some(5), None));
    assert!(!check_limits(6, None, Some(5)));
    assert!(check_limits(0, None, Some(0)));
}

#[test]
fn floor_count_condition_counts_floor_cells() {
    let g = parse(&["#..#", "#.##", "####"]);
    assert!(floor_count_within(&g, Some(3), Some(3)));
    assert!(floor_count_within(&g, Some(1), None));
    assert!(!floor_count_within(&g, Some(4), None));
    assert!(!floor_count_within(&g, None, Some(2)));
}

#[test]
fn region_count_condition_reads_the_parameter() {
    let mut c = PipelineContext::new();
    assert!(region_count_within(&c, None, Some(0)));
    assert!(!region_count_within(&c, Some(1), None));
    c.set_parameter("region_count", "7");
    assert!(region_count_within(&c, Some(7), Some(7)));
    assert!(!region_count_within(&c, Some(8), None));
    c.set_parameter("region_count", "+3");
    assert!(region_count_within(&c, Some(3), Some(3)));
    c.set_parameter("region_count", "three");
    assert!(region_count_within(&c, Some(0), Some(0)));
    c.set_parameter("region_count", "99999999999999999999999");
    assert!(region_count_within(&c, None, Some(0)));
}

#[test]
fn connected_condition_asks_for_floor() {
    let g = parse(&["#..#", "####"]);
    let empty = parse(&["####", "####"]);
    assert!(connected_holds(&g, true));
    assert!(!connected_holds(&g, false));
    assert!(connected_holds(&empty, false));
    assert!(!connected_holds(&empty, true));
}
