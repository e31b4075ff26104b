//! Text renderings of semantic information for debugging.

use crate::grid::{Grid, Tile};
use crate::pipeline::Keyed;
use crate::semantic::{ConnectivityGraph, Masks, Region};
use crate::semantic_extractor::{cell_pos, lists_point};
use vstd::prelude::*;

verus! {

/// Visualization configuration.
#[derive(Debug)]
pub struct VisualizationConfig {
    /// Characters to use for different region kinds.
    pub region_chars: Keyed<char>,
    /// Default character for unknown regions.
    pub default_region_char: char,
    /// Character for walls.
    pub wall_char: char,
    /// Character for floors without regions.
    pub floor_char: char,
    /// Show region ids instead of kinds.
    pub show_region_ids: bool,
    /// Show connectivity edges.
    pub show_connectivity: bool,
}

/// The region characters of the default configuration.
pub open spec fn default_region_chars() -> Map<Seq<char>, char> {
    Map::<Seq<char>, char>::empty().insert("Chamber"@, 'C').insert("Tunnel"@, 't').insert("Alcove"@, 'a').insert(
        "Crevice"@,
        'c',
    ).insert("Hall"@, 'H').insert("Room"@, 'R').insert("Closet"@, 'c').insert("Junction"@, 'J').insert(
        "Corridor"@,
        '-',
    ).insert("DeadEnd"@, 'D')
}

impl Default for VisualizationConfig {
    fn default() -> (r: VisualizationConfig)
        ensures
            r.region_chars.view() == default_region_chars(),
            r.default_region_char == '?',
            r.wall_char == '#',
            r.floor_char == '.',
            !r.show_region_ids,
            !r.show_connectivity,
    {
        let mut region_chars: Keyed<char> = Keyed::new();
        region_chars.insert("Chamber", 'C');
        region_chars.insert("Tunnel", 't');
        region_chars.insert("Alcove", 'a');
        region_chars.insert("Crevice", 'c');
        region_chars.insert("Hall", 'H');
        region_chars.insert("Room", 'R');
        region_chars.insert("Closet", 'c');
        region_chars.insert("Junction", 'J');
        region_chars.insert("Corridor", '-');
        region_chars.insert("DeadEnd", 'D');
        VisualizationConfig {
            region_chars,
            default_region_char: '?',
            wall_char: '#',
            floor_char: '.',
            show_region_ids: false,
            show_connectivity: false,
        }
    }
}

/// The character shown for entry `(x, y)` of a mask: `on` or `off`, or `?`
/// where the mask has no such entry.
pub open spec fn mask_char(m: Seq<Vec<bool>>, x: int, y: int, on: char, off: char) -> char {
    if 0 <= y < m.len() && 0 <= x < m[y]@.len() {
        if m[y]@[x] {
            on
        } else {
            off
        }
    } else {
        '?'
    }
}

/// Row `y` of a mask, `w` characters and a newline.
pub open spec fn mask_line(m: Seq<Vec<bool>>, y: int, w: int, on: char, off: char) -> Seq<char> {
    Seq::new(w as nat, |x: int| mask_char(m, x, y, on, off)).push('\n')
}

/// Rows `0` up to `h - 1` of a mask.
pub open spec fn mask_lines(m: Seq<Vec<bool>>, w: int, h: int, on: char, off: char) -> Seq<char>
    decreases h,
{
    if h <= 0 {
        seq![]
    } else {
        mask_lines(m, w, h - 1, on, off) + mask_line(m, h - 1, w, on, off)
    }
}

/// The text [`visualize_masks`] produces for a `w` by `h` grid.
pub open spec fn masks_text(masks: &Masks, w: int, h: int) -> Seq<char> {
    "=== WALKABLE MASK ===\n"@ + mask_lines(masks.walkable@, w, h, '.', '#') + "\n=== NO-SPAWN MASK ===\n"@
        + mask_lines(masks.no_spawn@, w, h, 'X', '.')
}

/// Appends the rows of mask `m` for a `w` by `h` grid: `.`/`#` for the
/// walkable mask (`walk`), `X`/`.` for the no-spawn mask.
fn append_mask(out: &mut String, m: &Vec<Vec<bool>>, w: usize, h: usize, walk: bool)
    ensures
        final(out)@ == old(out)@ + if walk {
            mask_lines(m@, w as int, h as int, '.', '#')
        } else {
            mask_lines(m@, w as int, h as int, 'X', '.')
        },
{
    let ghost on = if walk { '.' } else { 'X' };
    let ghost off = if walk { '#' } else { '.' };
    let ghost start = out@;
    proof {
        reveal_strlit(".");
        reveal_strlit("#");
        reveal_strlit("X");
        reveal_strlit("?");
        reveal_strlit("\n");
    }
    let mut y: usize = 0;
    while y < h
        invariant
            y <= h,
            on == if walk { '.' } else { 'X' },
            off == if walk { '#' } else { '.' },
            out@ == start + mask_lines(m@, w as int, y as int, on, off),
            "."@ == seq!['.'],
            "#"@ == seq!['#'],
            "X"@ == seq!['X'],
            "?"@ == seq!['?'],
            "\n"@ == seq!['\n'],
        decreases h - y,
    {
        let ghost row_start = out@;
        let mut x: usize = 0;
        while x < w
            invariant
                x <= w,
                y < h,
                on == if walk { '.' } else { 'X' },
                off == if walk { '#' } else { '.' },
                out@ == row_start + Seq::new(x as nat, |i: int| mask_char(m@, i, y as int, on, off)),
                "."@ == seq!['.'],
                "#"@ == seq!['#'],
                "X"@ == seq!['X'],
                "?"@ == seq!['?'],
                "\n"@ == seq!['\n'],
            decreases w - x,
        {
            let ghost before = out@;
            if y < m.len() && x < m[y].len() {
                if m[y][x] {
                    if walk {
                        out.append(".");
                    } else {
                        out.append("X");
                    }
                } else {
                    if walk {
                        out.append("#");
                    } else {
                        out.append(".");
                    }
                }
            } else {
                out.append("?");
            }
            proof {
                assert(out@ == before.push(mask_char(m@, x as int, y as int, on, off)));
                assert(Seq::new((x + 1) as nat, |i: int| mask_char(m@, i, y as int, on, off)) =~= Seq::new(
                    x as nat,
                    |i: int| mask_char(m@, i, y as int, on, off),
                ).push(mask_char(m@, x as int, y as int, on, off)));
            }
            x = x + 1;
        }
        out.append("\n");
        proof {
            assert(mask_lines(m@, w as int, y + 1, on, off) == mask_lines(m@, w as int, y as int, on, off) + mask_line(
                m@,
                y as int,
                w as int,
                on,
                off,
            ));
            assert(out@ =~= start + mask_lines(m@, w as int, y + 1, on, off));
        }
        y = y + 1;
    }
}

/// Both masks as text: a header, then one line per grid row with `.` for
/// walkable and `#` for blocked cells; a second header, then `X` for
/// no-spawn and `.` for spawnable cells. Cells the masks do not cover show
/// `?`.
pub fn visualize_masks(grid: &Grid<Tile>, masks: &Masks) -> (r: String)
    ensures
        r@ == masks_text(masks, grid.w() as int, grid.h() as int),
{
    let w = grid.width();
    let h = grid.height();
    let mut out = String::new();
    out.append("=== WALKABLE MASK ===\n");
    append_mask(&mut out, &masks.walkable, w, h, true);
    out.append("\n=== NO-SPAWN MASK ===\n");
    append_mask(&mut out, &masks.no_spawn, w, h, false);
    out
}

/// Appends `c` to `s` (`String::push`, which std documents as appending
/// the given char to the end of the string).
#[verifier::external_body]
pub(crate) fn push_char(s: &mut String, c: char)
    ensures
        final(s)@ == old(s)@.push(c),
{
    s.push(c);
}

/// Index of the last region of `rs` that lists point `p`, or `-1`.
pub open spec fn last_lister(rs: Seq<Region>, p: (int, int)) -> int
    decreases rs.len(),
{
    if rs.len() == 0 {
        -1
    } else if lists_point(rs.last(), p) {
        rs.len() - 1
    } else {
        last_lister(rs.drop_last(), p)
    }
}

proof fn lemma_last_lister_range(rs: Seq<Region>, p: (int, int))
    ensures
        -1 <= last_lister(rs, p) < rs.len(),
    decreases rs.len(),
{
    if rs.len() > 0 && !lists_point(rs.last(), p) {
        lemma_last_lister_range(rs.drop_last(), p);
    }
}

/// The digit character for `d < 10`.
pub open spec fn digit_char(d: u32) -> char {
    if d == 0 {
        '0'
    } else if d == 1 {
        '1'
    } else if d == 2 {
        '2'
    } else if d == 3 {
        '3'
    } else if d == 4 {
        '4'
    } else if d == 5 {
        '5'
    } else if d == 6 {
        '6'
    } else if d == 7 {
        '7'
    } else if d == 8 {
        '8'
    } else {
        '9'
    }
}

fn digit(d: u32) -> (c: char)
    requires
        d < 10,
    ensures
        c == digit_char(d),
{
    if d == 0 {
        '0'
    } else if d == 1 {
        '1'
    } else if d == 2 {
        '2'
    } else if d == 3 {
        '3'
    } else if d == 4 {
        '4'
    } else if d == 5 {
        '5'
    } else if d == 6 {
        '6'
    } else if d == 7 {
        '7'
    } else if d == 8 {
        '8'
    } else {
        '9'
    }
}

/// The character shown for cell `(x, y)`: the wall character on walls;
/// on a floor cell listed by a region (the last one listing it), the last
/// digit of its id or the character configured for its kind (the default
/// region character when none is); the floor character on other floors.
pub open spec fn region_cell_char(g: &Grid<Tile>, rs: Seq<Region>, config: &VisualizationConfig, x: int, y: int) -> char {
    if g.at(x, y) == Tile::Wall {
        config.wall_char
    } else if last_lister(rs, (x, y)) >= 0 {
        let r = rs[last_lister(rs, (x, y))];
        if config.show_region_ids {
            digit_char(r.id % 10)
        } else if config.region_chars.view().contains_key(r.kind@) {
            config.region_chars.view()[r.kind@]
        } else {
            config.default_region_char
        }
    } else {
        config.floor_char
    }
}

/// Rows `0` up to `h - 1` of the region map, each ending in a newline.
pub open spec fn region_lines(g: &Grid<Tile>, rs: Seq<Region>, config: &VisualizationConfig, h: int) -> Seq<char>
    decreases h,
{
    if h <= 0 {
        seq![]
    } else {
        region_lines(g, rs, config, h - 1) + Seq::new(g.w(), |x: int| region_cell_char(g, rs, config, x, h - 1)).push(
            '\n',
        )
    }
}

/// Index of the last of `regions` listing `(x, y)` (see [`last_lister`]).
fn lister_of(regions: &Vec<Region>, x: usize, y: usize) -> (r: Option<usize>)
    ensures
        match r {
            Some(k) => k == last_lister(regions@, (x as int, y as int)),
            None => last_lister(regions@, (x as int, y as int)) == -1,
        },
{
    let ghost p = (x as int, y as int);
    let mut k = regions.len();
    proof {
        assert(regions@.take(k as int) =~= regions@);
    }
    while k > 0
        invariant
            k <= regions@.len(),
            p == (x as int, y as int),
            last_lister(regions@, p) == last_lister(regions@.take(k as int), p),
        decreases k,
    {
        k = k - 1;
        let ghost t = regions@.take(k + 1);
        proof {
            assert(t.drop_last() =~= regions@.take(k as int));
            assert(t.last() == regions@[k as int]);
        }
        let cells = &regions[k].cells;
        let mut i: usize = 0;
        while i < cells.len()
            invariant
                i <= cells@.len(),
                k < regions@.len(),
                t == regions@.take(k + 1),
                t.last() == regions@[k as int],
                t.drop_last() == regions@.take(k as int),
                last_lister(regions@, p) == last_lister(t, p),
                cells@ == regions@[k as int].cells@,
                p == (x as int, y as int),
                forall|j: int| 0 <= j < i ==> cell_pos(#[trigger] cells@[j]) != p,
            decreases cells@.len() - i,
        {
            if cells[i].0 as usize == x && cells[i].1 as usize == y {
                proof {
                    assert(cell_pos(cells@[i as int]) == p);
                    assert(lists_point(t.last(), p));
                }
                return Some(k);
            }
            i = i + 1;
        }
        proof {
            if lists_point(t.last(), p) {
                let j = choose|j: int| 0 <= j < t.last().cells@.len() && cell_pos(#[trigger] t.last().cells@[j]) == p;
                assert(cell_pos(cells@[j]) == p);
            }
        }
    }
    proof {
        assert(regions@.take(0) =~= Seq::<Region>::empty());
    }
    None
}

/// The grid as text, one line per row: walls, region characters (kinds or
/// id digits, see [`region_cell_char`]) and plain floor.
pub fn visualize_regions(grid: &Grid<Tile>, regions: &Vec<Region>, config: &VisualizationConfig) -> (r: String)
    requires
        grid.wf(),
    ensures
        r@ == region_lines(grid, regions@, config, grid.h() as int),
{
    let w = grid.width();
    let h = grid.height();
    let ghost rs = regions@;
    let mut out = String::new();
    let mut y: usize = 0;
    while y < h
        invariant
            grid.wf(),
            w == grid.w(),
            h == grid.h(),
            rs == regions@,
            y <= h,
            out@ == region_lines(grid, rs, config, y as int),
        decreases h - y,
    {
        let ghost row_start = out@;
        let mut x: usize = 0;
        while x < w
            invariant
                grid.wf(),
                w == grid.w(),
                h == grid.h(),
                rs == regions@,
                x <= w,
                y < h,
                out@ == row_start + Seq::new(x as nat, |i: int| region_cell_char(grid, rs, config, i, y as int)),
            decreases w - x,
        {
            let ghost before = out@;
            let c = if grid.cell(x, y).is_wall() {
                config.wall_char
            } else {
                match lister_of(regions, x, y) {
                    Some(k) => {
                        proof {
                            lemma_last_lister_range(rs, (x as int, y as int));
                        }
                        if config.show_region_ids {
                            digit(regions[k].id % 10)
                        } else {
                            match config.region_chars.get(regions[k].kind.as_str()) {
                                Some(ch) => *ch,
                                None => config.default_region_char,
                            }
                        }
                    },
                    None => config.floor_char,
                }
            };
            push_char(&mut out, c);
            proof {
                assert(Seq::new((x + 1) as nat, |i: int| region_cell_char(grid, rs, config, i, y as int)) =~= Seq::new(
                    x as nat,
                    |i: int| region_cell_char(grid, rs, config, i, y as int),
                ).push(region_cell_char(grid, rs, config, x as int, y as int)));
            }
            x = x + 1;
        }
        push_char(&mut out, '\n');
        proof {
            assert(out@ =~= region_lines(grid, rs, config, y + 1));
        }
        y = y + 1;
    }
    out
}

/// The region map with id digits in place of kinds, in the default
/// characters.
pub fn visualize_region_ids(grid: &Grid<Tile>, regions: &Vec<Region>) -> (r: String)
    requires
        grid.wf(),
    ensures
        exists|config: VisualizationConfig|
            config.wall_char == '#' && config.floor_char == '.' && config.show_region_ids && r@ == #[trigger] region_lines(
                grid,
                regions@,
                &config,
                grid.h() as int,
            ),
{
    let mut config = VisualizationConfig::default();
    config.show_region_ids = true;
    let r = visualize_regions(grid, regions, &config);
    proof {
        assert(config.wall_char == '#' && config.floor_char == '.' && config.show_region_ids);
    }
    r
}

/// Decimal digits of `n`.
pub open spec fn decimal(n: nat) -> Seq<char>
    decreases n,
{
    if n < 10 {
        seq![digit_char(n as u32)]
    } else {
        decimal(n / 10) + seq![digit_char((n % 10) as u32)]
    }
}

/// Appends the decimal digits of `n`.
pub(crate) fn push_decimal(out: &mut String, n: u32)
    ensures
        final(out)@ == old(out)@ + decimal(n as nat),
    decreases n,
{
    if n >= 10 {
        push_decimal(out, n / 10);
    }
    push_char(out, digit(n % 10));
    proof {
        if n < 10 {
            assert(n % 10 == n);
        }
    }
}

/// Appends the decimal digits of the 64-bit `n`.
pub(crate) fn push_decimal_wide(out: &mut String, n: u64)
    ensures
        final(out)@ == old(out)@ + decimal(n as nat),
    decreases n,
{
    if n >= 10 {
        push_decimal_wide(out, n / 10);
    }
    let d = (n % 10) as u32;
    push_char(out, digit(d));
    proof {
        if n < 10 {
            assert(n % 10 == n);
        }
    }
}

/// The ids of `s`, in decimal, separated by `, `.
pub open spec fn joined_ids(s: Seq<u32>) -> Seq<char>
    decreases s.len(),
{
    if s.len() == 0 {
        seq![]
    } else if s.len() == 1 {
        decimal(s[0] as nat)
    } else {
        joined_ids(s.drop_last()) + ", "@ + decimal(s.last() as nat)
    }
}

/// A pair of ids as `(a, b)`.
pub open spec fn pair_text(p: (u32, u32)) -> Seq<char> {
    "("@ + decimal(p.0 as nat) + ", "@ + decimal(p.1 as nat) + ")"@
}

/// The pairs of `s`, each as `(a, b)`, separated by `, `.
pub open spec fn joined_pairs(s: Seq<(u32, u32)>) -> Seq<char>
    decreases s.len(),
{
    if s.len() == 0 {
        seq![]
    } else if s.len() == 1 {
        pair_text(s[0])
    } else {
        joined_pairs(s.drop_last()) + ", "@ + pair_text(s.last())
    }
}

/// Appends the ids of `s` as a bracketed list: `[1, 2, 3]`.
fn push_id_list(out: &mut String, s: &Vec<u32>)
    ensures
        final(out)@ == old(out)@ + "["@ + joined_ids(s@) + "]"@,
{
    let ghost start = out@;
    out.append("[");
    let mut i: usize = 0;
    while i < s.len()
        invariant
            i <= s@.len(),
            out@ == start + "["@ + joined_ids(s@.take(i as int)),
        decreases s@.len() - i,
    {
        proof {
            assert(s@.take(i + 1).drop_last() =~= s@.take(i as int));
            assert(s@.take(i + 1).last() == s@[i as int]);
        }
        if i > 0 {
            out.append(", ");
        }
        push_decimal(out, s[i]);
        proof {
            if i == 0 {
                assert(s@.take(1)[0] == s@[0]);
            }
            assert(out@ =~= start + "["@ + joined_ids(s@.take(i + 1)));
        }
        i = i + 1;
    }
    out.append("]");
    proof {
        assert(s@.take(s@.len() as int) =~= s@);
    }
}

/// Appends the pairs of `s` as a bracketed list: `[(1, 2), (3, 4)]`.
fn push_pair_list(out: &mut String, s: &Vec<(u32, u32)>)
    ensures
        final(out)@ == old(out)@ + "["@ + joined_pairs(s@) + "]"@,
{
    let ghost start = out@;
    out.append("[");
    let mut i: usize = 0;
    while i < s.len()
        invariant
            i <= s@.len(),
            out@ == start + "["@ + joined_pairs(s@.take(i as int)),
        decreases s@.len() - i,
    {
        proof {
            assert(s@.take(i + 1).drop_last() =~= s@.take(i as int));
            assert(s@.take(i + 1).last() == s@[i as int]);
        }
        let ghost before = out@;
        if i > 0 {
            out.append(", ");
        }
        let ghost mid = out@;
        out.append("(");
        push_decimal(out, s[i].0);
        out.append(", ");
        push_decimal(out, s[i].1);
        out.append(")");
        proof {
            assert(out@ =~= mid + pair_text(s@[i as int]));
            if i == 0 {
                assert(s@.take(1)[0] == s@[0]);
            }
            assert(out@ =~= start + "["@ + joined_pairs(s@.take(i + 1)));
        }
        i = i + 1;
    }
    out.append("]");
    proof {
        assert(s@.take(s@.len() as int) =~= s@);
    }
}

/// The entries of `s` in order of first appearance, each once.
pub open spec fn first_seen(s: Seq<u32>) -> Seq<u32>
    decreases s.len(),
{
    if s.len() == 0 {
        seq![]
    } else if first_seen(s.drop_last()).contains(s.last()) {
        first_seen(s.drop_last())
    } else {
        first_seen(s.drop_last()).push(s.last())
    }
}

/// Both ends of each edge, in order.
pub open spec fn endpoints(edges: Seq<(u32, u32)>) -> Seq<u32>
    decreases edges.len(),
{
    if edges.len() == 0 {
        seq![]
    } else {
        endpoints(edges.drop_last()).push(edges.last().0).push(edges.last().1)
    }
}

/// The neighbours of `id` along `edges`, one entry per edge end.
pub open spec fn neighbours_of(edges: Seq<(u32, u32)>, id: u32) -> Seq<u32>
    decreases edges.len(),
{
    if edges.len() == 0 {
        seq![]
    } else {
        let e = edges.last();
        let a = if e.0 == id { seq![e.1] } else { Seq::<u32>::empty() };
        let b = if e.1 == id { seq![e.0] } else { Seq::<u32>::empty() };
        neighbours_of(edges.drop_last(), id) + a + b
    }
}

/// One adjacency line per id of `keys`.
pub open spec fn adjacency_lines(keys: Seq<u32>, edges: Seq<(u32, u32)>) -> Seq<char>
    decreases keys.len(),
{
    if keys.len() == 0 {
        seq![]
    } else {
        adjacency_lines(keys.drop_last(), edges) + "Region "@ + decimal(keys.last() as nat) + ": connected to "@ + "["@
            + joined_ids(neighbours_of(edges, keys.last())) + "]"@ + "\n"@
    }
}

/// One `a -- b` line per edge.
pub open spec fn structure_lines(edges: Seq<(u32, u32)>) -> Seq<char>
    decreases edges.len(),
{
    if edges.len() == 0 {
        seq![]
    } else {
        structure_lines(edges.drop_last()) + decimal(edges.last().0 as nat) + " -- "@ + decimal(edges.last().1 as nat)
            + "\n"@
    }
}

/// The text [`visualize_connectivity_graph`] produces.
pub open spec fn graph_text(g: &ConnectivityGraph) -> Seq<char> {
    "=== CONNECTIVITY GRAPH ===\n"@ + "Regions: "@ + "["@ + joined_ids(g.regions@) + "]"@ + "\n"@ + "Edges: "@ + "["@
        + joined_pairs(g.edges@) + "]"@ + "\n"@ + "\n=== ADJACENCY LIST ===\n"@ + adjacency_lines(
        first_seen(g.regions@ + endpoints(g.edges@)),
        g.edges@,
    ) + "\n=== GRAPH STRUCTURE ===\n"@ + structure_lines(g.edges@)
}

/// Whether `s` holds `v`.
fn holds_value(s: &Vec<u32>, v: u32) -> (r: bool)
    ensures
        r == s@.contains(v),
{
    let mut i: usize = 0;
    while i < s.len()
        invariant
            i <= s@.len(),
            forall|j: int| 0 <= j < i ==> s@[j] != v,
        decreases s@.len() - i,
    {
        if s[i] == v {
            proof {
                assert(s@[i as int] == v);
            }
            return true;
        }
        i = i + 1;
    }
    false
}

/// The graph as text: its regions and edges as lists, then one adjacency
/// line per id (regions first, then ids only edges name, each once, in
/// order of first appearance), then one `a -- b` line per edge.
pub fn visualize_connectivity_graph(connectivity: &ConnectivityGraph) -> (r: String)
    ensures
        r@ == graph_text(connectivity),
{
    let regions = &connectivity.regions;
    let edges = &connectivity.edges;
    let mut out = String::new();
    out.append("=== CONNECTIVITY GRAPH ===\n");
    out.append("Regions: ");
    push_id_list(&mut out, regions);
    out.append("\n");
    out.append("Edges: ");
    push_pair_list(&mut out, edges);
    out.append("\n");
    out.append("\n=== ADJACENCY LIST ===\n");
    // All ids, regions first.
    let mut all: Vec<u32> = Vec::new();
    let mut i: usize = 0;
    while i < regions.len()
        invariant
            i <= regions@.len(),
            all@ == regions@.take(i as int),
        decreases regions@.len() - i,
    {
        all.push(regions[i]);
        proof {
            assert(regions@.take(i + 1) =~= regions@.take(i as int).push(regions@[i as int]));
        }
        i = i + 1;
    }
    let mut j: usize = 0;
    while j < edges.len()
        invariant
            j <= edges@.len(),
            all@ == regions@ + endpoints(edges@.take(j as int)),
        decreases edges@.len() - j,
    {
        proof {
            assert(edges@.take(j + 1).drop_last() =~= edges@.take(j as int));
            assert(edges@.take(j + 1).last() == edges@[j as int]);
            assert(regions@.take(regions@.len() as int) =~= regions@);
        }
        all.push(edges[j].0);
        all.push(edges[j].1);
        proof {
            assert(all@ =~= regions@ + endpoints(edges@.take(j + 1)));
        }
        j = j + 1;
    }
    proof {
        assert(edges@.take(edges@.len() as int) =~= edges@);
        if edges@.len() == 0 {
            assert(regions@.take(regions@.len() as int) =~= regions@);
            assert(all@ =~= regions@ + endpoints(edges@));
        }
    }
    let mut keys: Vec<u32> = Vec::new();
    let mut i: usize = 0;
    while i < all.len()
        invariant
            i <= all@.len(),
            keys@ == first_seen(all@.take(i as int)),
        decreases all@.len() - i,
    {
        proof {
            assert(all@.take(i + 1).drop_last() =~= all@.take(i as int));
            assert(all@.take(i + 1).last() == all@[i as int]);
        }
        if !holds_value(&keys, all[i]) {
            keys.push(all[i]);
        }
        i = i + 1;
    }
    proof {
        assert(all@.take(all@.len() as int) =~= all@);
    }
    let ghost start = out@;
    let mut k: usize = 0;
    while k < keys.len()
        invariant
            k <= keys@.len(),
            out@ == start + adjacency_lines(keys@.take(k as int), edges@),
        decreases keys@.len() - k,
    {
        let id = keys[k];
        let mut nb: Vec<u32> = Vec::new();
        let mut e: usize = 0;
        while e < edges.len()
            invariant
                e <= edges@.len(),
                nb@ == neighbours_of(edges@.take(e as int), id),
            decreases edges@.len() - e,
        {
            proof {
                assert(edges@.take(e + 1).drop_last() =~= edges@.take(e as int));
                assert(edges@.take(e + 1).last() == edges@[e as int]);
            }
            let ghost nb0 = nb@;
            if edges[e].0 == id {
                nb.push(edges[e].1);
            }
            let ghost nb1 = nb@;
            if edges[e].1 == id {
                nb.push(edges[e].0);
            }
            proof {
                assert(nb@ =~= neighbours_of(edges@.take(e + 1), id));
            }
            e = e + 1;
        }
        proof {
            assert(edges@.take(edges@.len() as int) =~= edges@);
            assert(keys@.take(k + 1).drop_last() =~= keys@.take(k as int));
            assert(keys@.take(k + 1).last() == keys@[k as int]);
        }
        let ghost before = out@;
        out.append("Region ");
        push_decimal(&mut out, id);
        out.append(": connected to ");
        push_id_list(&mut out, &nb);
        out.append("\n");
        proof {
            assert(out@ =~= start + adjacency_lines(keys@.take(k + 1), edges@));
        }
        k = k + 1;
    }
    proof {
        assert(keys@.take(keys@.len() as int) =~= keys@);
    }
    out.append("\n=== GRAPH STRUCTURE ===\n");
    let ghost start2 = out@;
    let mut e: usize = 0;
    while e < edges.len()
        invariant
            e <= edges@.len(),
            out@ == start2 + structure_lines(edges@.take(e as int)),
        decreases edges@.len() - e,
    {
        proof {
            assert(edges@.take(e + 1).drop_last() =~= edges@.take(e as int));
            assert(edges@.take(e + 1).last() == edges@[e as int]);
        }
        push_decimal(&mut out, edges[e].0);
        out.append(" -- ");
        push_decimal(&mut out, edges[e].1);
        out.append("\n");
        proof {
            assert(out@ =~= start2 + structure_lines(edges@.take(e + 1)));
        }
        e = e + 1;
    }
    proof {
        assert(edges@.take(edges@.len() as int) =~= edges@);
        assert(out@ =~= graph_text(connectivity));
    }
    out
}

} // verus!
