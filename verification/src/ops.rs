//! Grid combination, the error type of named operations, and algorithms
//! chosen by name with optional parameters.

use crate::effects::connectivity::{on_bridge, spanning_result};
use crate::effects::filters::{blurred, median_cell};
use crate::effects::morphology::morph_n;
use crate::effects::transform::{flip, mirror_x, mirror_y, rotate_source};
use crate::rng::{below, u64_draw, Rng};
use crate::structures::cellular::inner_index;
use crate::effects::connectivity::prune_n;
use crate::grid::{manhattan, Grid, Tile, TileCell};
use crate::pipeline::Keyed;
use crate::semantic::MarkerType;
use crate::structures::agent::{agent_outcome, law_agent_deterministic};
use crate::structures::bsp::{bsp_outcome, law_bsp_deterministic};
use crate::structures::cellular::{cellular_outcome, law_cellular_deterministic};
use crate::structures::dla::{dla_outcome, law_dla_deterministic};
use crate::structures::drunkard::{drunkard_outcome, law_drunkard_deterministic};
use crate::structures::maze::{law_maze_deterministic, maze_outcome};
use crate::structures::percolation::{law_percolation_deterministic, percolation_outcome};
use crate::structures::prefab::{law_prefab_deterministic, prefab_outcome};
use crate::structures::rooms::{law_rooms_deterministic, rooms_outcome};
use crate::structures::voronoi::{law_voronoi_deterministic, voronoi_outcome};
use crate::structures::wfc::{law_wfc_deterministic, wfc_outcome};
use crate::structures::{
    AgentBased, AgentConfig, Bsp, BspConfig, CellularAutomata, CellularConfig, Dla, DlaConfig, DrunkardConfig,
    DrunkardWalk, Maze, MazeConfig, Percolation, PercolationConfig, Prefab, PrefabConfig, PrefabPlacer, SimpleRooms,
    SimpleRoomsConfig, Voronoi, VoronoiConfig, Wfc, WfcConfig, WfcRules,
};
use crate::semantic_visualization::push_char;
use vstd::std_specs::iter::IteratorSpec;
use vstd::prelude::*;

verus! {

/// Error of a named operation: a message for the caller.
#[derive(Debug, Clone)]
pub struct OpError {
    message: String,
}

impl OpError {
    /// The message this error carries.
    pub closed spec fn text(&self) -> Seq<char> {
        self.message@
    }

    /// An error carrying `message`.
    pub fn new(message: String) -> (e: OpError)
        ensures
            e.text() == message@,
    {
        OpError { message }
    }

    /// The message this error carries.
    pub fn message(&self) -> (r: &str)
        ensures
            r@ == self.text(),
    {
        self.message.as_str()
    }
}

/// How [`combine`] merges another grid's cell into the current one.
#[derive(Debug, Clone, Copy, PartialEq, Eq, Structural)]
pub enum CombineMode {
    /// Take the other grid's cell.
    Replace,
    /// Floor where either grid is floor.
    Union,
    /// Floor only where both grids are floor.
    Intersect,
    /// Walls where the other grid is not floor (as `Intersect`).
    Mask,
    /// Wall where the other grid is floor.
    Difference,
}

/// The merged cell of `base` and `other` under `mode`.
pub open spec fn combined(mode: CombineMode, base: Tile, other: Tile) -> Tile {
    match mode {
        CombineMode::Replace => other,
        CombineMode::Union => if other == Tile::Floor {
            Tile::Floor
        } else {
            base
        },
        CombineMode::Intersect | CombineMode::Mask => if other != Tile::Floor {
            Tile::Wall
        } else {
            base
        },
        CombineMode::Difference => if other == Tile::Floor {
            Tile::Wall
        } else {
            base
        },
    }
}

/// Combines `other` into `grid` cell by cell over the area both cover;
/// cells outside that area keep their value. Never fails.
pub fn combine(mode: CombineMode, grid: &mut Grid<Tile>, other: &Grid<Tile>) -> (r: Result<(), OpError>)
    requires
        old(grid).wf(),
        other.wf(),
        old(grid).w() <= i32::MAX,
        old(grid).h() <= i32::MAX,
    ensures
        r is Ok,
        final(grid).wf(),
        final(grid).w() == old(grid).w(),
        final(grid).h() == old(grid).h(),
        forall|x: int, y: int|
            old(grid).contains(x, y) ==> #[trigger] final(grid).at(x, y) == if other.contains(x, y) {
                combined(mode, old(grid).at(x, y), other.at(x, y))
            } else {
                old(grid).at(x, y)
            },
{
    let ghost g0 = *grid;
    let w = if grid.width() < other.width() {
        grid.width()
    } else {
        other.width()
    };
    let h = if grid.height() < other.height() {
        grid.height()
    } else {
        other.height()
    };
    let mut y: usize = 0;
    while y < h
        invariant
            y <= h,
            w <= g0.w(),
            w <= other.w(),
            w == g0.w() || w == other.w(),
            h <= g0.h(),
            h <= other.h(),
            h == g0.h() || h == other.h(),
            g0.w() <= i32::MAX,
            g0.h() <= i32::MAX,
            other.wf(),
            grid.wf(),
            grid.w() == g0.w(),
            grid.h() == g0.h(),
            forall|px: int, py: int|
                g0.contains(px, py) ==> #[trigger] grid.at(px, py) == if py < y && other.contains(px, py) {
                    combined(mode, g0.at(px, py), other.at(px, py))
                } else {
                    g0.at(px, py)
                },
        decreases h - y,
    {
        let mut x: usize = 0;
        while x < w
            invariant
                x <= w,
                y < h,
                w <= g0.w(),
                w <= other.w(),
                w == g0.w() || w == other.w(),
                h <= g0.h(),
                h <= other.h(),
                h == g0.h() || h == other.h(),
                g0.w() <= i32::MAX,
                g0.h() <= i32::MAX,
                other.wf(),
                grid.wf(),
                grid.w() == g0.w(),
                grid.h() == g0.h(),
                forall|px: int, py: int|
                    g0.contains(px, py) ==> #[trigger] grid.at(px, py) == if (py < y || (py == y && px < x))
                        && other.contains(px, py) {
                        combined(mode, g0.at(px, py), other.at(px, py))
                    } else {
                        g0.at(px, py)
                    },
            decreases w - x,
        {
            let o = other.cell(x, y);
            match mode {
                CombineMode::Replace => {
                    grid.set(x as i32, y as i32, o);
                },
                CombineMode::Union => {
                    if o.is_floor() {
                        grid.set(x as i32, y as i32, Tile::Floor);
                    }
                },
                CombineMode::Intersect | CombineMode::Mask => {
                    if !o.is_floor() {
                        grid.set(x as i32, y as i32, Tile::Wall);
                    }
                },
                CombineMode::Difference => {
                    if o.is_floor() {
                        grid.set(x as i32, y as i32, Tile::Wall);
                    }
                },
            }
            x = x + 1;
        }
        y = y + 1;
    }
    Ok(())
}

/// The characters of `s`.
pub(crate) fn chars_of(s: &str) -> (r: Vec<char>)
    ensures
        r@ == s@,
{
    let mut out: Vec<char> = Vec::new();
    let mut it = s.chars();
    proof {
        vstd::string::axiom_spec_iter(s);
    }
    loop
        invariant
            it.obeys_prophetic_iter_laws(),
            it.decrease() is Some,
            out@ + it.remaining() == s@,
        ensures
            out@ == s@,
        decreases it.decrease()->0,
    {
        let ghost before = it;
        match it.next() {
            Some(c) => {
                proof {
                    vstd::string::next_postcondition(&before, &it, Some(c));
                }
                out.push(c);
                proof {
                    assert(out@ + it.remaining() =~= s@);
                }
            },
            None => {
                proof {
                    vstd::string::next_postcondition(&before, &it, None::<char>);
                    assert(out@ =~= s@);
                }
                break;
            },
        }
    }
    out
}

/// Unicode white space: the characters `char::is_whitespace` accepts.
pub open spec fn is_white_space(c: char) -> bool {
    let u = c as u32;
    (0x9 <= u <= 0xd) || u == 0x20 || u == 0x85 || u == 0xa0 || u == 0x1680 || (0x2000 <= u <= 0x200a) || u == 0x2028
        || u == 0x2029 || u == 0x202f || u == 0x205f || u == 0x3000
}

fn white_space(c: char) -> (r: bool)
    ensures
        r == is_white_space(c),
{
    let u = c as u32;
    (0x9 <= u && u <= 0xd) || u == 0x20 || u == 0x85 || u == 0xa0 || u == 0x1680 || (0x2000 <= u && u <= 0x200a)
        || u == 0x2028 || u == 0x2029 || u == 0x202f || u == 0x205f || u == 0x3000
}

/// `s` without its leading white space.
pub open spec fn trim_start(s: Seq<char>) -> Seq<char>
    decreases s.len(),
{
    if s.len() > 0 && is_white_space(s[0]) {
        trim_start(s.drop_first())
    } else {
        s
    }
}

/// `s` without its trailing white space.
pub open spec fn trim_end(s: Seq<char>) -> Seq<char>
    decreases s.len(),
{
    if s.len() > 0 && is_white_space(s.last()) {
        trim_end(s.drop_last())
    } else {
        s
    }
}

/// `s` without leading and trailing white space.
pub open spec fn trimmed(s: Seq<char>) -> Seq<char> {
    trim_end(trim_start(s))
}

/// `c` with ASCII capitals made small.
pub open spec fn lower_char(c: char) -> char {
    if 'A' <= c <= 'Z' {
        ((c as u32) + 32) as char
    } else {
        c
    }
}

/// `s` with ASCII capitals made small.
pub open spec fn ascii_lower(s: Seq<char>) -> Seq<char> {
    s.map_values(|c: char| lower_char(c))
}

/// The part of `s` after its last `_` (all of `s` when it has none).
pub open spec fn after_last_underscore(s: Seq<char>) -> Seq<char>
    decreases s.len(),
{
    if s.len() == 0 {
        s
    } else if s.last() == '_' {
        Seq::empty()
    } else {
        after_last_underscore(s.drop_last()).push(s.last())
    }
}

/// An ASCII digit.
pub open spec fn is_digit(c: char) -> bool {
    48 <= (c as u32) <= 57
}

/// Every character of `d` is an ASCII digit.
pub open spec fn all_digits(d: Seq<char>) -> bool {
    forall|i: int| 0 <= i < d.len() ==> #[trigger] is_digit(d[i])
}

/// The number the ASCII digits `d` spell.
pub open spec fn digits_value(d: Seq<char>) -> nat
    decreases d.len(),
{
    if d.len() == 0 {
        0
    } else {
        digits_value(d.drop_last()) * 10 + ((d.last() as u32) - 48) as nat
    }
}

/// What `u8::from_str` gives: an optional `+`, then one or more ASCII
/// digits spelling at most 255.
pub open spec fn parse_u8(s: Seq<char>) -> Option<u8> {
    let d = if s.len() > 0 && s[0] == '+' {
        s.drop_first()
    } else {
        s
    };
    if d.len() == 0 || !all_digits(d) {
        None
    } else if digits_value(d) > 255 {
        None
    } else {
        Some(digits_value(d) as u8)
    }
}

/// The level a marker name ends in (after its last `_`), or `1`.
pub open spec fn name_level(lower: Seq<char>) -> u8 {
    match parse_u8(after_last_underscore(lower)) {
        Some(v) => v,
        None => 1,
    }
}

/// `s` begins with `p`.
pub open spec fn begins_with(s: Seq<char>, p: Seq<char>) -> bool {
    p.len() <= s.len() && s.subrange(0, p.len() as int) == p
}

/// `m` is the marker type `name` stands for: the name is trimmed and
/// matched without regard to ASCII case against the known names; names
/// starting with `quest_objective`, `loot_tier` or `encounter` take the
/// level after their last `_` (1 when it is no number up to 255); any
/// other name is a custom marker with the trimmed name.
pub open spec fn names_marker(name: Seq<char>, m: MarkerType) -> bool {
    let t = trimmed(name);
    let l = ascii_lower(t);
    if l == "spawn"@ {
        m == MarkerType::Spawn
    } else if l == "playerstart"@ || l == "player_start"@ {
        m matches MarkerType::Custom(s) && s@ == "PlayerStart"@
    } else if l == "exit"@ {
        m matches MarkerType::Custom(s) && s@ == "Exit"@
    } else if l == "treasure"@ || l == "loot"@ {
        m matches MarkerType::Custom(s) && s@ == "Treasure"@
    } else if l == "enemy"@ {
        m matches MarkerType::Custom(s) && s@ == "Enemy"@
    } else if l == "furniture"@ {
        m matches MarkerType::Custom(s) && s@ == "Furniture"@
    } else if l == "boss"@ || l == "boss_room"@ {
        m == MarkerType::BossRoom
    } else if l == "safe_zone"@ || l == "safezone"@ {
        m == MarkerType::SafeZone
    } else if begins_with(l, "quest_objective"@) {
        m == MarkerType::QuestObjective { priority: name_level(l) }
    } else if begins_with(l, "loot_tier"@) {
        m == MarkerType::LootTier { tier: name_level(l) }
    } else if begins_with(l, "encounter"@) {
        m == MarkerType::EncounterZone { difficulty: name_level(l) }
    } else {
        m matches MarkerType::Custom(s) && s@ == t
    }
}

/// `v` spells `lit`.
fn spells(v: &Vec<char>, lit: &str) -> (r: bool)
    ensures
        r == (v@ == lit@),
{
    let w = chars_of(lit);
    if v.len() != w.len() {
        return false;
    }
    let mut i: usize = 0;
    while i < v.len()
        invariant
            i <= v@.len(),
            v@.len() == w@.len(),
            w@ == lit@,
            forall|j: int| 0 <= j < i ==> v@[j] == w@[j],
        decreases v@.len() - i,
    {
        if v[i] != w[i] {
            return false;
        }
        i = i + 1;
    }
    proof {
        assert(v@ =~= w@);
    }
    true
}

/// `v` begins with `lit`.
fn starts_with_lit(v: &Vec<char>, lit: &str) -> (r: bool)
    ensures
        r == begins_with(v@, lit@),
{
    let w = chars_of(lit);
    if w.len() > v.len() {
        return false;
    }
    let mut i: usize = 0;
    while i < w.len()
        invariant
            i <= w@.len(),
            w@.len() <= v@.len(),
            w@ == lit@,
            forall|j: int| 0 <= j < i ==> v@[j] == w@[j],
        decreases w@.len() - i,
    {
        if v[i] != w[i] {
            proof {
                assert(v@.subrange(0, w@.len() as int)[i as int] != w@[i as int]);
            }
            return false;
        }
        i = i + 1;
    }
    proof {
        assert(v@.subrange(0, w@.len() as int) =~= w@);
    }
    true
}

/// `s` without leading and trailing white space.
fn trim_chars(v: &Vec<char>) -> (r: Vec<char>)
    ensures
        r@ == trimmed(v@),
{
    let n = v.len();
    let mut i: usize = 0;
    proof {
        assert(v@.subrange(0, n as int) =~= v@);
    }
    while i < n && white_space(v[i])
        invariant
            i <= n,
            n == v@.len(),
            trim_start(v@) == trim_start(v@.subrange(i as int, n as int)),
        decreases n - i,
    {
        proof {
            assert(v@.subrange(i as int, n as int).drop_first() =~= v@.subrange(i + 1, n as int));
        }
        i = i + 1;
    }
    proof {
        assert(trim_start(v@.subrange(i as int, n as int)) == v@.subrange(i as int, n as int));
    }
    let mut j: usize = n;
    while j > i && white_space(v[j - 1])
        invariant
            i <= j <= n,
            n == v@.len(),
            trim_end(v@.subrange(i as int, n as int)) == trim_end(v@.subrange(i as int, j as int)),
        decreases j - i,
    {
        proof {
            assert(v@.subrange(i as int, j as int).drop_last() =~= v@.subrange(i as int, j - 1));
        }
        j = j - 1;
    }
    let mut out: Vec<char> = Vec::new();
    let mut k: usize = i;
    while k < j
        invariant
            i <= k <= j <= n,
            n == v@.len(),
            out@ == v@.subrange(i as int, k as int),
        decreases j - k,
    {
        out.push(v[k]);
        proof {
            assert(out@ =~= v@.subrange(i as int, k + 1));
        }
        k = k + 1;
    }
    proof {
        assert(trim_end(v@.subrange(i as int, j as int)) == v@.subrange(i as int, j as int));
    }
    out
}

/// `v` with ASCII capitals made small.
fn lower_chars(v: &Vec<char>) -> (r: Vec<char>)
    ensures
        r@ == ascii_lower(v@),
{
    let mut out: Vec<char> = Vec::new();
    let mut i: usize = 0;
    while i < v.len()
        invariant
            i <= v@.len(),
            out@ == ascii_lower(v@.take(i as int)),
        decreases v@.len() - i,
    {
        let c = v[i];
        let d = if 'A' <= c && c <= 'Z' {
            ((c as u8) + 32) as char
        } else {
            c
        };
        out.push(d);
        proof {
            assert(d == lower_char(c));
            assert(ascii_lower(v@.take(i + 1)) =~= ascii_lower(v@.take(i as int)).push(lower_char(c)));
        }
        i = i + 1;
    }
    proof {
        assert(v@.take(v@.len() as int) =~= v@);
    }
    out
}

/// The part of `v` after its last `_`.
fn last_segment(v: &Vec<char>) -> (r: Vec<char>)
    ensures
        r@ == after_last_underscore(v@),
{
    let n = v.len();
    let mut j: usize = n;
    proof {
        assert(v@.subrange(0, n as int) =~= v@);
        assert(v@.subrange(n as int, n as int) =~= Seq::<char>::empty());
    }
    while j > 0 && v[j - 1] != '_'
        invariant
            j <= n,
            n == v@.len(),
            after_last_underscore(v@) == after_last_underscore(v@.subrange(0, j as int)) + v@.subrange(j as int, n as int),
        decreases j,
    {
        proof {
            let s = v@.subrange(0, j as int);
            assert(s.drop_last() =~= v@.subrange(0, j - 1));
            assert(s.last() == v@[j - 1]);
            assert(after_last_underscore(v@.subrange(0, j - 1)).push(v@[j - 1]) + v@.subrange(j as int, n as int)
                =~= after_last_underscore(v@.subrange(0, j - 1)) + v@.subrange(j - 1, n as int));
        }
        j = j - 1;
    }
    proof {
        if j == 0 {
            assert(v@.subrange(0, 0) =~= Seq::<char>::empty());
        } else {
            assert(v@.subrange(0, j as int).last() == v@[j - 1]);
        }
        assert(after_last_underscore(v@.subrange(0, j as int)) =~= Seq::<char>::empty());
    }
    let mut out: Vec<char> = Vec::new();
    let mut k: usize = j;
    while k < n
        invariant
            j <= k <= n,
            n == v@.len(),
            out@ == v@.subrange(j as int, k as int),
        decreases n - k,
    {
        out.push(v[k]);
        proof {
            assert(out@ =~= v@.subrange(j as int, k + 1));
        }
        k = k + 1;
    }
    proof {
        assert(Seq::<char>::empty() + v@.subrange(j as int, n as int) =~= v@.subrange(j as int, n as int));
    }
    out
}

proof fn lemma_digits_prefix(d: Seq<char>, i: int, j: int)
    requires
        0 <= i <= j <= d.len(),
        forall|k: int| 0 <= k < d.len() ==> is_digit(d[k]),
    ensures
        digits_value(d.take(i)) <= digits_value(d.take(j)),
    decreases j - i,
{
    if i < j {
        lemma_digits_prefix(d, i, j - 1);
        assert(d.take(j).drop_last() =~= d.take(j - 1));
        assert(d.take(j).last() == d[j - 1]);
    }
}

/// What `usize::from_str` gives: an optional `+`, then one or more ASCII
/// digits spelling at most `usize::MAX`.
pub open spec fn parse_usize(s: Seq<char>) -> Option<usize> {
    let d = if s.len() > 0 && s[0] == '+' {
        s.drop_first()
    } else {
        s
    };
    if d.len() == 0 || !all_digits(d) {
        None
    } else if digits_value(d) > usize::MAX {
        None
    } else {
        Some(digits_value(d) as usize)
    }
}

/// `usize::from_str` on `v` (see [`parse_usize`]).
pub(crate) fn parse_count(v: &Vec<char>) -> (r: Option<usize>)
    ensures
        r == parse_usize(v@),
{
    let start: usize = if v.len() > 0 && v[0] == '+' {
        1
    } else {
        0
    };
    let ghost d = if v@.len() > 0 && v@[0] == '+' {
        v@.drop_first()
    } else {
        v@
    };
    proof {
        assert(d =~= v@.subrange(start as int, v@.len() as int));
    }
    if start >= v.len() {
        return None;
    }
    let mut k: usize = start;
    while k < v.len()
        invariant
            start <= k <= v@.len(),
            d == v@.subrange(start as int, v@.len() as int),
            d == if v@.len() > 0 && v@[0] == '+' {
                v@.drop_first()
            } else {
                v@
            },
            forall|i: int| 0 <= i < k - start ==> is_digit(d[i]),
        decreases v@.len() - k,
    {
        let u = v[k] as u32;
        if !(48 <= u && u <= 57) {
            proof {
                assert(d[k - start] == v@[k as int]);
                assert(!is_digit(d[k - start]));
                assert(!all_digits(d));
            }
            return None;
        }
        k = k + 1;
    }
    let mut value: u128 = 0;
    let mut k: usize = start;
    while k < v.len()
        invariant
            start <= k <= v@.len(),
            d == v@.subrange(start as int, v@.len() as int),
            d == if v@.len() > 0 && v@[0] == '+' {
                v@.drop_first()
            } else {
                v@
            },
            forall|i: int| 0 <= i < d.len() ==> is_digit(d[i]),
            value == digits_value(d.take(k - start)),
            value <= usize::MAX,
        decreases v@.len() - k,
    {
        proof {
            assert(d[k - start] == v@[k as int]);
            assert(is_digit(d[k - start]));
        }
        let digit = ((v[k] as u32) - 48) as u128;
        proof {
            assert(d.take(k - start + 1).drop_last() =~= d.take(k - start));
            assert(d.take(k - start + 1).last() == d[k - start]);
        }
        let next = value * 10 + digit;
        proof {
            assert(next == digits_value(d.take(k - start + 1)));
        }
        if next > usize::MAX as u128 {
            proof {
                lemma_digits_prefix(d, k - start + 1, d.len() as int);
                assert(d.take(d.len() as int) =~= d);
                assert(digits_value(d) > usize::MAX);
            }
            return None;
        }
        value = next;
        k = k + 1;
    }
    proof {
        assert(d.take(d.len() as int) =~= d);
    }
    Some(value as usize)
}

/// `u8::from_str` on `v` (see [`parse_u8`]).
fn parse_small(v: &Vec<char>) -> (r: Option<u8>)
    ensures
        r == parse_u8(v@),
{
    let start: usize = if v.len() > 0 && v[0] == '+' {
        1
    } else {
        0
    };
    let ghost d = if v@.len() > 0 && v@[0] == '+' {
        v@.drop_first()
    } else {
        v@
    };
    proof {
        assert(d =~= v@.subrange(start as int, v@.len() as int));
    }
    if start >= v.len() {
        return None;
    }
    let mut k: usize = start;
    while k < v.len()
        invariant
            start <= k <= v@.len(),
            d == v@.subrange(start as int, v@.len() as int),
            d == if v@.len() > 0 && v@[0] == '+' {
                v@.drop_first()
            } else {
                v@
            },
            forall|i: int| 0 <= i < k - start ==> is_digit(d[i]),
        decreases v@.len() - k,
    {
        let u = v[k] as u32;
        if !(48 <= u && u <= 57) {
            proof {
                assert(d[k - start] == v@[k as int]);
                assert(!is_digit(d[k - start]));
                assert(!all_digits(d));
            }
            return None;
        }
        k = k + 1;
    }
    let mut value: u32 = 0;
    let mut k: usize = start;
    while k < v.len()
        invariant
            start <= k <= v@.len(),
            d == v@.subrange(start as int, v@.len() as int),
            d == if v@.len() > 0 && v@[0] == '+' {
                v@.drop_first()
            } else {
                v@
            },
            forall|i: int| 0 <= i < d.len() ==> is_digit(d[i]),
            value == digits_value(d.take(k - start)),
            value <= 255,
        decreases v@.len() - k,
    {
        proof {
            assert(d[k - start] == v@[k as int]);
            assert(is_digit(d[k - start]));
        }
        let digit = (v[k] as u32) - 48;
        proof {
            assert(d.take(k - start + 1).drop_last() =~= d.take(k - start));
            assert(d.take(k - start + 1).last() == d[k - start]);
        }
        let next = value * 10 + digit;
        proof {
            assert(next == digits_value(d.take(k - start + 1)));
        }
        if next > 255 {
            proof {
                lemma_digits_prefix(d, k - start + 1, d.len() as int);
                assert(d.take(d.len() as int) =~= d);
                assert(digits_value(d) > 255);
            }
            return None;
        }
        value = next;
        k = k + 1;
    }
    proof {
        assert(d.take(d.len() as int) =~= d);
    }
    Some(value as u8)
}

/// A string holding the characters `v`.
fn string_of(v: &Vec<char>) -> (r: String)
    ensures
        r@ == v@,
{
    let mut s = String::new();
    let mut i: usize = 0;
    while i < v.len()
        invariant
            i <= v@.len(),
            s@ == v@.take(i as int),
        decreases v@.len() - i,
    {
        push_char(&mut s, v[i]);
        proof {
            assert(v@.take(i as int).push(v@[i as int]) =~= v@.take(i + 1));
        }
        i = i + 1;
    }
    proof {
        assert(v@.take(v@.len() as int) =~= v@);
    }
    s
}

/// The level at the end of a lowered name (see [`name_level`]).
fn level_of(lower: &Vec<char>) -> (r: u8)
    ensures
        r == name_level(lower@),
{
    let seg = last_segment(lower);
    match parse_small(&seg) {
        Some(v) => v,
        None => 1,
    }
}

/// The marker type a name stands for (see [`names_marker`]).
pub fn parse_marker_type(name: &str) -> (m: MarkerType)
    ensures
        names_marker(name@, m),
{
    let chars = chars_of(name);
    let t = trim_chars(&chars);
    let l = lower_chars(&t);
    if spells(&l, "spawn") {
        MarkerType::Spawn
    } else if spells(&l, "playerstart") || spells(&l, "player_start") {
        MarkerType::Custom("PlayerStart".to_string())
    } else if spells(&l, "exit") {
        MarkerType::Custom("Exit".to_string())
    } else if spells(&l, "treasure") || spells(&l, "loot") {
        MarkerType::Custom("Treasure".to_string())
    } else if spells(&l, "enemy") {
        MarkerType::Custom("Enemy".to_string())
    } else if spells(&l, "furniture") {
        MarkerType::Custom("Furniture".to_string())
    } else if spells(&l, "boss") || spells(&l, "boss_room") {
        MarkerType::BossRoom
    } else if spells(&l, "safe_zone") || spells(&l, "safezone") {
        MarkerType::SafeZone
    } else if starts_with_lit(&l, "quest_objective") {
        MarkerType::QuestObjective { priority: level_of(&l) }
    } else if starts_with_lit(&l, "loot_tier") {
        MarkerType::LootTier { tier: level_of(&l) }
    } else if starts_with_lit(&l, "encounter") {
        MarkerType::EncounterZone { difficulty: level_of(&l) }
    } else {
        MarkerType::Custom(string_of(&t))
    }
}

/// What the named operations read from one parameter value: the value as a
/// whole number, as a chance (a probability in units of `1 / CHANCE_ONE`,
/// see [`crate::rng::CHANCE_ONE`]), as a flag, as a point `[x, y]` and as a
/// tile, each where the value reads that way, and the prefabs it lists.
#[derive(Clone)]
pub struct ParamValue {
    pub int: Option<u64>,
    pub chance: Option<u64>,
    pub flag: Option<bool>,
    pub point: Option<(u64, u64)>,
    pub cell: Option<Tile>,
    pub prefabs: Vec<Prefab>,
}

/// Named parameters of an operation.
pub type Params = Keyed<ParamValue>;

/// The parameters as a map, where they are given.
pub open spec fn param_map(params: Option<&Params>) -> Option<Map<Seq<char>, ParamValue>> {
    match params {
        Some(p) => Some(p.view()),
        None => None,
    }
}

/// The value given for `key`, if any.
pub open spec fn param_at(pm: Option<Map<Seq<char>, ParamValue>>, key: Seq<char>) -> Option<ParamValue> {
    match pm {
        Some(m) => if m.contains_key(key) {
            Some(m[key])
        } else {
            None
        },
        None => None,
    }
}

/// The whole number given for `key`, or `d`.
pub open spec fn int_param(pm: Option<Map<Seq<char>, ParamValue>>, key: Seq<char>, d: usize) -> usize {
    match param_at(pm, key) {
        Some(v) => match v.int {
            Some(n) => n as usize,
            None => d,
        },
        None => d,
    }
}

/// The whole number given for `key` as a `u64` (a seed), or `d`.
pub open spec fn seed_param(pm: Option<Map<Seq<char>, ParamValue>>, key: Seq<char>, d: u64) -> u64 {
    match param_at(pm, key) {
        Some(v) => match v.int {
            Some(n) => n,
            None => d,
        },
        None => d,
    }
}

/// The chance given for `key`, or `d`.
pub open spec fn chance_param(pm: Option<Map<Seq<char>, ParamValue>>, key: Seq<char>, d: u64) -> u64 {
    match param_at(pm, key) {
        Some(v) => match v.chance {
            Some(n) => n,
            None => d,
        },
        None => d,
    }
}

/// The flag given for `key`, or `d`.
pub open spec fn flag_param(pm: Option<Map<Seq<char>, ParamValue>>, key: Seq<char>, d: bool) -> bool {
    match param_at(pm, key) {
        Some(v) => match v.flag {
            Some(b) => b,
            None => d,
        },
        None => d,
    }
}

/// The prefabs listed under `prefabs`, if any.
pub open spec fn prefab_param(pm: Option<Map<Seq<char>, ParamValue>>) -> Seq<Prefab> {
    match param_at(pm, "prefabs"@) {
        Some(v) => v.prefabs@,
        None => Seq::empty(),
    }
}

/// `a` and `b` hold the same prefabs, in the same order.
pub open spec fn same_prefabs(a: Seq<Prefab>, b: Seq<Prefab>) -> bool {
    &&& a.len() == b.len()
    &&& forall|i: int|
        0 <= i < a.len() ==> (#[trigger] a[i]).width == b[i].width && a[i].height == b[i].height && a[i].data@
            == b[i].data@
}

/// A generator chosen by name, with its configuration.
#[derive(Clone)]
pub enum AlgorithmSpec {
    Bsp(BspConfig),
    Cellular(CellularConfig),
    Drunkard(DrunkardConfig),
    Maze(MazeConfig),
    Rooms(SimpleRoomsConfig),
    Voronoi(VoronoiConfig),
    Dla(DlaConfig),
    Wfc(WfcConfig),
    Percolation(PercolationConfig),
    Agent(AgentConfig),
    Prefab(PrefabConfig, Vec<Prefab>),
}

/// The names [`build_algorithm`] knows (after trimming).
pub open spec fn known_algorithm(n: Seq<char>) -> bool {
    ||| n == "bsp"@
    ||| n == "cellular"@
    ||| n == "cellular_automata"@
    ||| n == "drunkard"@
    ||| n == "maze"@
    ||| n == "rooms"@
    ||| n == "simple_rooms"@
    ||| n == "voronoi"@
    ||| n == "dla"@
    ||| n == "wfc"@
    ||| n == "wave_function_collapse"@
    ||| n == "percolation"@
    ||| n == "agent"@
    ||| n == "prefab"@
}

/// `a` is the generator that name `n` and parameters `pm` ask for: each
/// setting is the parameter of the same name where given (whole numbers,
/// chances and flags as the setting needs) and the generator's default
/// otherwise; the prefab placer takes the listed prefabs, or a single
/// all-floor 5 by 5 prefab when none are listed.
pub open spec fn builds_algorithm(n: Seq<char>, pm: Option<Map<Seq<char>, ParamValue>>, a: AlgorithmSpec) -> bool {
    if n == "bsp"@ {
        &&& a matches AlgorithmSpec::Bsp(c)
        &&& c.min_room_size == int_param(pm, "min_room_size"@, 5)
        &&& c.max_depth == int_param(pm, "max_depth"@, 4)
        &&& c.room_padding == int_param(pm, "room_padding"@, 1)
    } else if n == "cellular"@ || n == "cellular_automata"@ {
        &&& a matches AlgorithmSpec::Cellular(c)
        &&& c.initial_floor_chance == chance_param(pm, "initial_floor_chance"@, 4053239664633447)
        &&& c.iterations == int_param(pm, "iterations"@, 4)
        &&& c.birth_limit == int_param(pm, "birth_limit"@, 5)
        &&& c.death_limit == int_param(pm, "death_limit"@, 4)
    } else if n == "drunkard"@ {
        &&& a matches AlgorithmSpec::Drunkard(c)
        &&& c.floor_percent == chance_param(pm, "floor_percent"@, 3602879701896397)
        &&& c.max_iterations == int_param(pm, "max_iterations"@, 50000)
    } else if n == "maze"@ {
        &&& a matches AlgorithmSpec::Maze(c)
        &&& c.corridor_width == int_param(pm, "corridor_width"@, 1)
    } else if n == "rooms"@ || n == "simple_rooms"@ {
        &&& a matches AlgorithmSpec::Rooms(c)
        &&& c.max_rooms == int_param(pm, "max_rooms"@, 10)
        &&& c.min_room_size == int_param(pm, "min_room_size"@, 4)
        &&& c.max_room_size == int_param(pm, "max_room_size"@, 10)
        &&& c.min_spacing == int_param(pm, "min_spacing"@, 1)
    } else if n == "voronoi"@ {
        &&& a matches AlgorithmSpec::Voronoi(c)
        &&& c.num_points == int_param(pm, "num_points"@, 15)
        &&& c.floor_chance == chance_param(pm, "floor_chance"@, 4503599627370496)
    } else if n == "dla"@ {
        &&& a matches AlgorithmSpec::Dla(c)
        &&& c.num_particles == int_param(pm, "num_particles"@, 500)
        &&& c.max_walk_steps == int_param(pm, "max_walk_steps"@, 1000)
    } else if n == "wfc"@ || n == "wave_function_collapse"@ {
        &&& a matches AlgorithmSpec::Wfc(c)
        &&& c.rules.adjacencies@.len() == 2
        &&& c.rules.adjacencies@[0]@ == seq![0usize, 1usize]
        &&& c.rules.adjacencies@[1]@ == seq![0usize, 1usize]
        &&& c.floor_weight == chance_param(pm, "floor_weight"@, 3602879701896397)
    } else if n == "percolation"@ {
        &&& a matches AlgorithmSpec::Percolation(c)
        &&& c.fill_probability == chance_param(pm, "fill_probability"@, 4053239664633447)
        &&& c.keep_largest == flag_param(pm, "keep_largest"@, true)
    } else if n == "agent"@ {
        &&& a matches AlgorithmSpec::Agent(c)
        &&& c.num_agents == int_param(pm, "num_agents"@, 5)
        &&& c.steps_per_agent == int_param(pm, "steps_per_agent"@, 200)
        &&& c.turn_chance == chance_param(pm, "turn_chance"@, 2702159776422298)
    } else if n == "prefab"@ {
        &&& a matches AlgorithmSpec::Prefab(c, ps)
        &&& c.max_prefabs == int_param(pm, "max_prefabs"@, 3)
        &&& c.min_spacing == int_param(pm, "min_spacing"@, 5)
        &&& if prefab_param(pm).len() > 0 {
            same_prefabs(ps@, prefab_param(pm))
        } else {
            &&& ps@.len() == 1
            &&& ps@[0].width == 5
            &&& ps@[0].height == 5
            &&& ps@[0].wf()
            &&& forall|i: int| 0 <= i < ps@[0].data@.len() ==> ps@[0].data@[i]
        }
    } else {
        false
    }
}

/// The whole number given for `key`, or `d`.
fn int_or(params: Option<&Params>, key: &str, d: usize) -> (r: usize)
    ensures
        r == int_param(param_map(params), key@, d),
{
    match params {
        Some(p) => match p.get(key) {
            Some(v) => match v.int {
                Some(n) => n as usize,
                None => d,
            },
            None => d,
        },
        None => d,
    }
}

/// The whole number given for `key` as a `u64`, or `d`.
fn seed_or(params: Option<&Params>, key: &str, d: u64) -> (r: u64)
    ensures
        r == seed_param(param_map(params), key@, d),
{
    match params {
        Some(p) => match p.get(key) {
            Some(v) => match v.int {
                Some(n) => n,
                None => d,
            },
            None => d,
        },
        None => d,
    }
}

/// The chance given for `key`, or `d`.
fn chance_or(params: Option<&Params>, key: &str, d: u64) -> (r: u64)
    ensures
        r == chance_param(param_map(params), key@, d),
{
    match params {
        Some(p) => match p.get(key) {
            Some(v) => match v.chance {
                Some(n) => n,
                None => d,
            },
            None => d,
        },
        None => d,
    }
}

/// The flag given for `key`, or `d`.
fn flag_or(params: Option<&Params>, key: &str, d: bool) -> (r: bool)
    ensures
        r == flag_param(param_map(params), key@, d),
{
    match params {
        Some(p) => match p.get(key) {
            Some(v) => match v.flag {
                Some(b) => b,
                None => d,
            },
            None => d,
        },
        None => d,
    }
}

/// A prefab with the same size and cells as `p`.
fn copy_prefab(p: &Prefab) -> (r: Prefab)
    ensures
        r.width == p.width,
        r.height == p.height,
        r.data@ == p.data@,
{
    let mut data: Vec<bool> = Vec::new();
    let mut i: usize = 0;
    while i < p.data.len()
        invariant
            i <= p.data@.len(),
            data@ == p.data@.take(i as int),
        decreases p.data@.len() - i,
    {
        data.push(p.data[i]);
        proof {
            assert(p.data@.take(i as int).push(p.data@[i as int]) =~= p.data@.take(i + 1));
        }
        i = i + 1;
    }
    proof {
        assert(p.data@.take(p.data@.len() as int) =~= p.data@);
    }
    Prefab { width: p.width, height: p.height, data }
}

/// The prefabs listed under `prefabs`, copied.
fn listed_prefabs(params: Option<&Params>) -> (r: Vec<Prefab>)
    ensures
        same_prefabs(r@, prefab_param(param_map(params))),
{
    let ghost want = prefab_param(param_map(params));
    let src: &Vec<Prefab> = match params {
        Some(p) => match p.get("prefabs") {
            Some(v) => &v.prefabs,
            None => {
                return Vec::new();
            },
        },
        None => {
            return Vec::new();
        },
    };
    let mut out: Vec<Prefab> = Vec::new();
    let mut i: usize = 0;
    while i < src.len()
        invariant
            i <= src@.len(),
            src@ == want,
            out@.len() == i,
            forall|k: int|
                0 <= k < i ==> (#[trigger] out@[k]).width == src@[k].width && out@[k].height == src@[k].height
                    && out@[k].data@ == src@[k].data@,
        decreases src@.len() - i,
    {
        let q = copy_prefab(&src[i]);
        out.push(q);
        i = i + 1;
    }
    out
}

/// `lit` followed by the characters `v`.
fn prefixed(lit: &str, v: &Vec<char>) -> (r: String)
    ensures
        r@ == lit@ + v@,
{
    let mut all = chars_of(lit);
    let ghost base = all@;
    let mut i: usize = 0;
    while i < v.len()
        invariant
            i <= v@.len(),
            base == lit@,
            all@ == base + v@.take(i as int),
        decreases v@.len() - i,
    {
        all.push(v[i]);
        proof {
            assert(base + v@.take(i + 1) =~= (base + v@.take(i as int)).push(v@[i as int]));
        }
        i = i + 1;
    }
    proof {
        assert(v@.take(v@.len() as int) =~= v@);
    }
    string_of(&all)
}

/// Builds the generator that `name` (trimmed) and `params` ask for, as
/// [`builds_algorithm`] says; an unknown name is refused with the message
/// `Unknown algorithm: ` and the trimmed name.
pub fn build_algorithm(name: &str, params: Option<&Params>) -> (r: Result<AlgorithmSpec, OpError>)
    ensures
        r is Ok <==> known_algorithm(trimmed(name@)),
        r matches Ok(a) ==> builds_algorithm(trimmed(name@), param_map(params), a),
        r matches Err(e) ==> e.text() == "Unknown algorithm: "@ + trimmed(name@),
{
    let t = trim_chars(&chars_of(name));
    if spells(&t, "bsp") {
        Ok(
            AlgorithmSpec::Bsp(
                BspConfig {
                    min_room_size: int_or(params, "min_room_size", 5),
                    max_depth: int_or(params, "max_depth", 4),
                    room_padding: int_or(params, "room_padding", 1),
                },
            ),
        )
    } else if spells(&t, "cellular") || spells(&t, "cellular_automata") {
        Ok(
            AlgorithmSpec::Cellular(
                CellularConfig {
                    initial_floor_chance: chance_or(params, "initial_floor_chance", 4053239664633447),
                    iterations: int_or(params, "iterations", 4),
                    birth_limit: int_or(params, "birth_limit", 5),
                    death_limit: int_or(params, "death_limit", 4),
                },
            ),
        )
    } else if spells(&t, "drunkard") {
        Ok(
            AlgorithmSpec::Drunkard(
                DrunkardConfig {
                    floor_percent: chance_or(params, "floor_percent", 3602879701896397),
                    max_iterations: int_or(params, "max_iterations", 50000),
                },
            ),
        )
    } else if spells(&t, "maze") {
        Ok(AlgorithmSpec::Maze(MazeConfig { corridor_width: int_or(params, "corridor_width", 1) }))
    } else if spells(&t, "rooms") || spells(&t, "simple_rooms") {
        Ok(
            AlgorithmSpec::Rooms(
                SimpleRoomsConfig {
                    max_rooms: int_or(params, "max_rooms", 10),
                    min_room_size: int_or(params, "min_room_size", 4),
                    max_room_size: int_or(params, "max_room_size", 10),
                    min_spacing: int_or(params, "min_spacing", 1),
                },
            ),
        )
    } else if spells(&t, "voronoi") {
        Ok(
            AlgorithmSpec::Voronoi(
                VoronoiConfig {
                    num_points: int_or(params, "num_points", 15),
                    floor_chance: chance_or(params, "floor_chance", 4503599627370496),
                },
            ),
        )
    } else if spells(&t, "dla") {
        Ok(
            AlgorithmSpec::Dla(
                DlaConfig {
                    num_particles: int_or(params, "num_particles", 500),
                    max_walk_steps: int_or(params, "max_walk_steps", 1000),
                },
            ),
        )
    } else if spells(&t, "wfc") || spells(&t, "wave_function_collapse") {
        Ok(
            AlgorithmSpec::Wfc(
                WfcConfig {
                    rules: WfcRules::simple_dungeon(),
                    floor_weight: chance_or(params, "floor_weight", 3602879701896397),
                },
            ),
        )
    } else if spells(&t, "percolation") {
        Ok(
            AlgorithmSpec::Percolation(
                PercolationConfig {
                    fill_probability: chance_or(params, "fill_probability", 4053239664633447),
                    keep_largest: flag_or(params, "keep_largest", true),
                },
            ),
        )
    } else if spells(&t, "agent") {
        Ok(
            AlgorithmSpec::Agent(
                AgentConfig {
                    num_agents: int_or(params, "num_agents", 5),
                    steps_per_agent: int_or(params, "steps_per_agent", 200),
                    turn_chance: chance_or(params, "turn_chance", 2702159776422298),
                },
            ),
        )
    } else if spells(&t, "prefab") {
        let config = PrefabConfig {
            max_prefabs: int_or(params, "max_prefabs", 3),
            min_spacing: int_or(params, "min_spacing", 5),
        };
        let mut prefabs = listed_prefabs(params);
        if prefabs.len() == 0 {
            prefabs.push(Prefab::rect(5, 5));
        }
        Ok(AlgorithmSpec::Prefab(config, prefabs))
    } else {
        Err(OpError::new(prefixed("Unknown algorithm: ", &t)))
    }
}

impl AlgorithmSpec {
    /// The generator can run on a `w` by `h` grid: the sizes and settings
    /// for which its arithmetic stays in range.
    pub open spec fn runs_on(&self, w: int, h: int) -> bool {
        match self {
            AlgorithmSpec::Bsp(c) => 2 <= w <= i32::MAX && 2 <= h <= i32::MAX && c.min_room_size <= usize::MAX / 2
                && c.room_padding <= usize::MAX / 2,
            AlgorithmSpec::Cellular(_) => h >= 1 && (w >= 1 || h <= 2),
            AlgorithmSpec::Drunkard(_) => w <= i32::MAX && h <= i32::MAX,
            AlgorithmSpec::Maze(c) => 1 <= w <= i32::MAX && 1 <= h <= i32::MAX && c.corridor_width < usize::MAX,
            AlgorithmSpec::Rooms(c) => w + c.min_spacing <= i32::MAX && h + c.min_spacing <= i32::MAX
                && c.min_room_size <= c.max_room_size <= usize::MAX - 2 && c.max_rooms * 3 <= usize::MAX,
            AlgorithmSpec::Voronoi(c) => w <= i32::MAX && h <= i32::MAX && (c.num_points > 0 ==> w >= 3 && h >= 3) && (
            c.num_points == 0 ==> w <= 2 || h <= 2) && h >= 1 && (w >= 1 || h <= 2),
            AlgorithmSpec::Dla(_) => 3 <= w <= i32::MAX && 3 <= h <= i32::MAX,
            AlgorithmSpec::Wfc(_) => (w == 0) == (h == 0),
            AlgorithmSpec::Percolation(_) => h >= 1 && (w >= 1 || h <= 2),
            AlgorithmSpec::Agent(c) => w <= i32::MAX && h <= i32::MAX && (c.num_agents > 0 ==> w >= 3 && h >= 3),
            AlgorithmSpec::Prefab(c, ps) => w + c.min_spacing <= i32::MAX && h + c.min_spacing <= i32::MAX
                && c.max_prefabs * 10 <= usize::MAX && forall|i: int| 0 <= i < ps@.len() ==> #[trigger] ps@[i].wf(),
        }
    }

    /// `g1` is a possible result of the generator on `g0` with `seed`: what
    /// the generator's own `generate` states of its result.
    pub open spec fn outcome(&self, seed: u64, g0: Grid<TileCell>, g1: Grid<TileCell>) -> bool {
        match self {
            AlgorithmSpec::Bsp(c) => bsp_outcome(*c, seed, g0, g1),
            AlgorithmSpec::Cellular(c) => cellular_outcome(*c, seed, g0, g1),
            AlgorithmSpec::Drunkard(c) => drunkard_outcome(*c, seed, g0, g1),
            AlgorithmSpec::Maze(c) => maze_outcome(*c, seed, g0, g1),
            AlgorithmSpec::Rooms(c) => rooms_outcome(*c, seed, g0, g1),
            AlgorithmSpec::Voronoi(c) => voronoi_outcome(*c, seed, g0, g1),
            AlgorithmSpec::Dla(c) => dla_outcome(*c, seed, g0, g1),
            AlgorithmSpec::Wfc(c) => wfc_outcome(*c, seed, g0, g1),
            AlgorithmSpec::Percolation(c) => percolation_outcome(*c, seed, g0, g1),
            AlgorithmSpec::Agent(c) => agent_outcome(*c, seed, g0, g1),
            AlgorithmSpec::Prefab(c, ps) => prefab_outcome(*c, ps@, seed, g0, g1),
        }
    }

    /// Every generator is deterministic: the same generator, seed and grid
    /// give the same result.
    pub proof fn law_generate_deterministic(&self, seed: u64, g0: Grid<TileCell>, g1: Grid<TileCell>, g2: Grid<TileCell>)
        requires
            g0.wf(),
            self.outcome(seed, g0, g1),
            self.outcome(seed, g0, g2),
        ensures
            g1.cells() == g2.cells(),
    {
        match self {
            AlgorithmSpec::Bsp(c) => law_bsp_deterministic(*c, seed, g0, g1, g2),
            AlgorithmSpec::Cellular(c) => law_cellular_deterministic(*c, seed, g0, g1, g2),
            AlgorithmSpec::Drunkard(c) => law_drunkard_deterministic(*c, seed, g0, g1, g2),
            AlgorithmSpec::Maze(c) => law_maze_deterministic(*c, seed, g0, g1, g2),
            AlgorithmSpec::Rooms(c) => law_rooms_deterministic(*c, seed, g0, g1, g2),
            AlgorithmSpec::Voronoi(c) => law_voronoi_deterministic(*c, seed, g0, g1, g2),
            AlgorithmSpec::Dla(c) => law_dla_deterministic(*c, seed, g0, g1, g2),
            AlgorithmSpec::Wfc(c) => law_wfc_deterministic(*c, seed, g0, g1, g2),
            AlgorithmSpec::Percolation(c) => law_percolation_deterministic(*c, seed, g0, g1, g2),
            AlgorithmSpec::Agent(c) => law_agent_deterministic(*c, seed, g0, g1, g2),
            AlgorithmSpec::Prefab(c, ps) => law_prefab_deterministic(*c, ps@, seed, g0, g1, g2),
        }
    }

    /// The generator only turns walls into floor.
    pub open spec fn carves_only(&self) -> bool {
        ||| self is Bsp
        ||| self is Drunkard
        ||| self is Maze
        ||| self is Rooms
        ||| self is Dla
        ||| self is Agent
        ||| self is Prefab
    }

    /// The generator leaves the border cells as they are.
    pub open spec fn keeps_border(&self) -> bool {
        ||| self is Bsp
        ||| self is Cellular
        ||| self is Maze
        ||| self is Rooms
        ||| self is Voronoi
        ||| self is Dla
        ||| self is Agent
        ||| self is Prefab
    }

    /// Whether the generator can run on a `w` by `h` grid ([`Self::runs_on`]).
    pub fn fits(&self, w: usize, h: usize) -> (r: bool)
        ensures
            r == self.runs_on(w as int, h as int),
    {
        let m: usize = 0x7fff_ffff;
        match self {
            AlgorithmSpec::Bsp(c) => 2 <= w && w <= m && 2 <= h && h <= m && c.min_room_size <= usize::MAX / 2
                && c.room_padding <= usize::MAX / 2,
            AlgorithmSpec::Cellular(_) => h >= 1 && (w >= 1 || h <= 2),
            AlgorithmSpec::Drunkard(_) => w <= m && h <= m,
            AlgorithmSpec::Maze(c) => 1 <= w && w <= m && 1 <= h && h <= m && c.corridor_width < usize::MAX,
            AlgorithmSpec::Rooms(c) => c.min_spacing <= m && w <= m - c.min_spacing && h <= m - c.min_spacing
                && c.min_room_size <= c.max_room_size && c.max_room_size <= usize::MAX - 2 && c.max_rooms
                <= usize::MAX / 3,
            AlgorithmSpec::Voronoi(c) => w <= m && h <= m && (c.num_points == 0 || (w >= 3 && h >= 3)) && (
            c.num_points > 0 || w <= 2 || h <= 2) && h >= 1 && (w >= 1 || h <= 2),
            AlgorithmSpec::Dla(_) => 3 <= w && w <= m && 3 <= h && h <= m,
            AlgorithmSpec::Wfc(_) => (w == 0) == (h == 0),
            AlgorithmSpec::Percolation(_) => h >= 1 && (w >= 1 || h <= 2),
            AlgorithmSpec::Agent(c) => w <= m && h <= m && (c.num_agents == 0 || (w >= 3 && h >= 3)),
            AlgorithmSpec::Prefab(c, ps) => {
                if !(c.min_spacing <= m && w <= m - c.min_spacing && h <= m - c.min_spacing && c.max_prefabs
                    <= usize::MAX / 10) {
                    return false;
                }
                let mut i: usize = 0;
                while i < ps.len()
                    invariant
                        i <= ps@.len(),
                        forall|k: int| 0 <= k < i ==> #[trigger] ps@[k].wf(),
                        self.runs_on(w as int, h as int) == (forall|k: int| 0 <= k < ps@.len() ==> #[trigger] ps@[k].wf()),
                    decreases ps@.len() - i,
                {
                    let p = &ps[i];
                    let len = p.data.len();
                    let ok = match p.width.checked_mul(p.height) {
                        Some(n) => n == len,
                        None => false,
                    };
                    if !ok {
                        assert(!ps@[i as int].wf());
                        return false;
                    }
                    i = i + 1;
                }
                true
            },
        }
    }

    /// Runs the generator on `grid` with `seed`: the result is one the
    /// generator's own `generate` allows ([`Self::outcome`]); the grid keeps
    /// its size, carving generators only turn walls into floor, and most
    /// leave the border alone.
    pub fn generate(self, grid: &mut Grid<TileCell>, seed: u64)
        requires
            old(grid).wf(),
            self.runs_on(old(grid).w() as int, old(grid).h() as int),
        ensures
            self.outcome(seed, *old(grid), *final(grid)),
            final(grid).wf(),
            final(grid).w() == old(grid).w(),
            final(grid).h() == old(grid).h(),
            self.carves_only() ==> old(grid).grows_to(final(grid)),
            self.keeps_border() ==> old(grid).same_outside(final(grid), 1, 1, old(grid).w() - 1, old(grid).h() - 1),
    {
        match self {
            AlgorithmSpec::Bsp(c) => Bsp::new(c).generate(grid, seed),
            AlgorithmSpec::Cellular(c) => CellularAutomata::new(c).generate(grid, seed),
            AlgorithmSpec::Drunkard(c) => DrunkardWalk::new(c).generate(grid, seed),
            AlgorithmSpec::Maze(c) => Maze::new(c).generate(grid, seed),
            AlgorithmSpec::Rooms(c) => SimpleRooms::new(c).generate(grid, seed),
            AlgorithmSpec::Voronoi(c) => Voronoi::new(c).generate(grid, seed),
            AlgorithmSpec::Dla(c) => Dla::new(c).generate(grid, seed),
            AlgorithmSpec::Wfc(c) => Wfc::new(c).generate(grid, seed),
            AlgorithmSpec::Percolation(c) => Percolation::new(c).generate(grid, seed),
            AlgorithmSpec::Agent(c) => AgentBased::new(c).generate(grid, seed),
            AlgorithmSpec::Prefab(c, ps) => PrefabPlacer::new(c, ps).generate(grid, seed),
        }
    }
}

/// The whole number given for `key`, if any.
pub open spec fn int_given(pm: Option<Map<Seq<char>, ParamValue>>, key: Seq<char>) -> Option<usize> {
    match param_at(pm, key) {
        Some(v) => match v.int {
            Some(n) => Some(n as usize),
            None => None,
        },
        None => None,
    }
}

/// The point given for `key`, if any.
pub open spec fn point_given(pm: Option<Map<Seq<char>, ParamValue>>, key: Seq<char>) -> Option<(usize, usize)> {
    match param_at(pm, key) {
        Some(v) => match v.point {
            Some(q) => Some((q.0 as usize, q.1 as usize)),
            None => None,
        },
        None => None,
    }
}

/// The angle for `rotate`: the `degrees` parameter (cut to 32 bits), or 90.
pub open spec fn degrees_param(pm: Option<Map<Seq<char>, ParamValue>>) -> u32 {
    match param_at(pm, "degrees"@) {
        Some(v) => match v.int {
            Some(n) => n as u32,
            None => 90,
        },
        None => 90,
    }
}

/// The tile of the value, or wall.
pub open spec fn tile_or_wall(v: ParamValue) -> Tile {
    match v.cell {
        Some(t) => t,
        None => Tile::Wall,
    }
}

/// The pad tile for `resize`: the `pad` parameter when given, else
/// `pad_value`, else wall (a given value that names no tile gives wall).
pub open spec fn pad_param(pm: Option<Map<Seq<char>, ParamValue>>) -> Tile {
    match param_at(pm, "pad"@) {
        Some(v) => tile_or_wall(v),
        None => match param_at(pm, "pad_value"@) {
            Some(v) => tile_or_wall(v),
            None => Tile::Wall,
        },
    }
}

/// The effects that [`effect`] applies.
pub enum EffectKind {
    Erode,
    Dilate,
    Open,
    Close,
    BridgeGaps,
    RemoveDeadEnds,
    Mirror,
    Rotate,
    GaussianBlur,
    MedianFilter,
    ClearRect,
    Invert,
    Resize,
    ConnectSpanning,
    Scatter,
}

/// The effect a (trimmed) name stands for.
pub open spec fn effect_kind(n: Seq<char>) -> Option<EffectKind> {
    if n == "erode"@ {
        Some(EffectKind::Erode)
    } else if n == "dilate"@ {
        Some(EffectKind::Dilate)
    } else if n == "open"@ {
        Some(EffectKind::Open)
    } else if n == "close"@ {
        Some(EffectKind::Close)
    } else if n == "bridge_gaps"@ {
        Some(EffectKind::BridgeGaps)
    } else if n == "remove_dead_ends"@ {
        Some(EffectKind::RemoveDeadEnds)
    } else if n == "mirror"@ {
        Some(EffectKind::Mirror)
    } else if n == "rotate"@ {
        Some(EffectKind::Rotate)
    } else if n == "gaussian_blur"@ {
        Some(EffectKind::GaussianBlur)
    } else if n == "median_filter"@ {
        Some(EffectKind::MedianFilter)
    } else if n == "clear_rect"@ {
        Some(EffectKind::ClearRect)
    } else if n == "invert"@ {
        Some(EffectKind::Invert)
    } else if n == "resize"@ {
        Some(EffectKind::Resize)
    } else if n == "connect_regions_spanning"@ {
        Some(EffectKind::ConnectSpanning)
    } else if n == "scatter"@ {
        Some(EffectKind::Scatter)
    } else {
        None
    }
}

/// The effects whose arithmetic is in floating point, or that read semantic
/// layers: their callers apply them.
pub open spec fn caller_effect(n: Seq<char>) -> bool {
    ||| n == "domain_warp"@
    ||| n == "clear_marker_area"@
    ||| n == "connect_markers"@
}

/// The message [`effect`] refuses `n` with, if it does: an effect that its
/// callers apply ([`caller_effect`]), an unknown name, a
/// `clear_rect` without parameters or without a center, a `resize` without
/// parameters or without a width or height.
pub open spec fn effect_error(n: Seq<char>, pm: Option<Map<Seq<char>, ParamValue>>) -> Option<Seq<char>> {
    match effect_kind(n) {
        None => if caller_effect(n) {
            Some("Effect not applied by the library: "@ + n)
        } else {
            Some("Unknown effect: "@ + n)
        },
        Some(EffectKind::ClearRect) => if pm is None {
            Some("clear_rect requires params"@)
        } else if point_given(pm, "center"@) is None {
            Some("clear_rect requires center: [x, y]"@)
        } else {
            None
        },
        Some(EffectKind::Resize) => if pm is None {
            Some("resize requires params"@)
        } else if int_given(pm, "width"@) is None {
            Some("resize requires width"@)
        } else if int_given(pm, "height"@) is None {
            Some("resize requires height"@)
        } else {
            None
        },
        Some(_) => None,
    }
}

/// A square window of radius `r` has a cell count that fits in `usize`.
pub open spec fn window_fits(r: int) -> bool {
    (2 * r + 1) * (2 * r + 1) <= usize::MAX
}

/// The effect named `n` with parameters `pm` can run on a `w` by `h` grid:
/// the sizes and settings for which its arithmetic stays in range.
pub open spec fn effect_runs(n: Seq<char>, pm: Option<Map<Seq<char>, ParamValue>>, w: int, h: int) -> bool {
    let m = 0x7fff_ffffint;
    match effect_kind(n) {
        Some(EffectKind::Erode) | Some(EffectKind::Dilate) | Some(EffectKind::Open) | Some(EffectKind::Close) => {
            &&& w <= m
            &&& h <= m
            &&& int_param(pm, "iterations"@, 1) > 0 ==> w >= 1 && h >= 1
        },
        Some(EffectKind::BridgeGaps) => w + h <= m + 2 && int_param(pm, "max_distance"@, 5) < usize::MAX,
        Some(EffectKind::RemoveDeadEnds) => {
            &&& w <= m
            &&& h <= m
            &&& int_param(pm, "iterations"@, 3) > 0 ==> h >= 1 && (h >= 3 ==> w >= 1)
        },
        Some(EffectKind::GaussianBlur) => {
            &&& w <= m
            &&& h <= m
            &&& h >= 2
            &&& h >= 3 ==> w >= 2
            &&& window_fits(int_param(pm, "radius"@, 1) as int)
        },
        Some(EffectKind::MedianFilter) => {
            let r = int_param(pm, "radius"@, 1) as int;
            &&& w <= m
            &&& h <= m
            &&& r <= h
            &&& h > 2 * r ==> r <= w
            &&& window_fits(r)
        },
        Some(EffectKind::ClearRect) => match point_given(pm, "center"@) {
            Some(c) => {
                let cw = int_param(pm, "width"@, 3) as int;
                let ch = int_param(pm, "height"@, 3) as int;
                cw > 0 && ch > 0 ==> cw <= m && ch <= m && c.0 + cw - cw / 2 <= m + 1 && c.1 + ch - ch / 2 <= m + 1
            },
            None => true,
        },
        Some(EffectKind::Resize) => match (int_given(pm, "width"@), int_given(pm, "height"@)) {
            (Some(a), Some(b)) => a * b <= usize::MAX && a <= m && b <= m,
            _ => true,
        },
        Some(EffectKind::ConnectSpanning) => w <= m && h <= m && w * h <= 0xffff_ffff,
        Some(EffectKind::Scatter) => h >= 1 && (w >= 1 || h <= 2),
        Some(_) => w <= m && h <= m,
        None => true,
    }
}

/// `g1` has the size of `g0`.
pub open spec fn same_size(g0: Grid<Tile>, g1: Grid<Tile>) -> bool {
    g1.wf() && g1.w() == g0.w() && g1.h() == g0.h()
}

/// `g1` is what the effect named `n` with parameters `pm` makes of `g0`:
/// each effect as its own function states it, with the parameters read as
/// whole numbers, chances, flags, points and tiles and the defaults
/// iterations 1 (3 for `remove_dead_ends`), max distance 5, radius 1, a
/// horizontal mirror, 90 degrees, a 3 by 3 rectangle, seed 42, an extra
/// connection chance of 0.2 and a scatter density of 0.12 (as chances, the
/// least multiples of `2^-53` not below them).
pub open spec fn effect_done(n: Seq<char>, pm: Option<Map<Seq<char>, ParamValue>>, g0: Grid<Tile>, g1: Grid<Tile>) -> bool {
    let w = g0.w() as int;
    let h = g0.h() as int;
    let s = g0.cells();
    match effect_kind(n) {
        Some(EffectKind::Erode) => same_size(g0, g1) && g1.cells() == morph_n(
            s,
            w,
            h,
            true,
            int_param(pm, "iterations"@, 1) as nat,
        ),
        Some(EffectKind::Dilate) => same_size(g0, g1) && g1.cells() == morph_n(
            s,
            w,
            h,
            false,
            int_param(pm, "iterations"@, 1) as nat,
        ),
        Some(EffectKind::Open) => {
            let it = int_param(pm, "iterations"@, 1) as nat;
            same_size(g0, g1) && g1.cells() == morph_n(morph_n(s, w, h, true, it), w, h, false, it)
        },
        Some(EffectKind::Close) => {
            let it = int_param(pm, "iterations"@, 1) as nat;
            same_size(g0, g1) && g1.cells() == morph_n(morph_n(s, w, h, false, it), w, h, true, it)
        },
        Some(EffectKind::BridgeGaps) => {
            let d = int_param(pm, "max_distance"@, 5) as int;
            &&& g0.grows_to(&g1)
            &&& forall|p: (int, int), q: (int, int), a: (int, int), b: (int, int)|
                #[trigger] g0.connected(p, a) && #[trigger] g0.connected(q, b) && manhattan(a, b) <= d
                    ==> g1.connected(p, q)
            &&& forall|x: int, y: int|
                g0.contains(x, y) && #[trigger] g1.at(x, y) != g0.at(x, y) ==> on_bridge(&g0, d, (x, y))
            &&& (forall|p: (int, int), q: (int, int)| #[trigger] g0.open_at(p) && #[trigger] g0.open_at(q) ==> g0.connected(p, q))
                ==> forall|x: int, y: int| g0.contains(x, y) ==> #[trigger] g1.at(x, y) == g0.at(x, y)
        },
        Some(EffectKind::RemoveDeadEnds) => same_size(g0, g1) && g1.cells() == prune_n(
            s,
            w,
            h,
            int_param(pm, "iterations"@, 3) as nat,
        ),
        Some(EffectKind::Mirror) => {
            let hz = flag_param(pm, "horizontal"@, true);
            let vt = flag_param(pm, "vertical"@, false);
            &&& same_size(g0, g1)
            &&& forall|x: int, y: int|
                g0.contains(x, y) ==> #[trigger] g1.at(x, y) == g0.at(mirror_x(hz, w, x), mirror_y(vt, h, y))
        },
        Some(EffectKind::Rotate) => {
            &&& same_size(g0, g1)
            &&& forall|x: int, y: int|
                g0.contains(x, y) ==> {
                    let src = rotate_source(degrees_param(pm), w, h, x, y);
                    #[trigger] g1.at(x, y) == g0.at(src.0, src.1)
                }
        },
        Some(EffectKind::GaussianBlur) => {
            let r = int_param(pm, "radius"@, 1) as int;
            &&& same_size(g0, g1)
            &&& forall|x: int, y: int| g0.contains(x, y) ==> #[trigger] g1.at(x, y) == blurred(s, w, h, r, x, y)
        },
        Some(EffectKind::MedianFilter) => {
            let r = int_param(pm, "radius"@, 1) as int;
            &&& same_size(g0, g1)
            &&& forall|x: int, y: int| g0.contains(x, y) ==> #[trigger] g1.at(x, y) == median_cell(s, w, h, r, x, y)
        },
        Some(EffectKind::ClearRect) => {
            let c = point_given(pm, "center"@).unwrap();
            let cw = int_param(pm, "width"@, 3) as int;
            let ch = int_param(pm, "height"@, 3) as int;
            &&& same_size(g0, g1)
            &&& forall|px: int, py: int|
                g0.contains(px, py) ==> #[trigger] g1.at(px, py) == if cw > 0 && ch > 0 && c.0 - cw / 2 <= px < c.0
                    - cw / 2 + cw && c.1 - ch / 2 <= py < c.1 - ch / 2 + ch {
                    Tile::Floor
                } else {
                    g0.at(px, py)
                }
        },
        Some(EffectKind::Invert) => {
            &&& same_size(g0, g1)
            &&& forall|x: int, y: int| g0.contains(x, y) ==> #[trigger] g1.at(x, y) == flip(g0.at(x, y))
        },
        Some(EffectKind::Resize) => {
            let pad = pad_param(pm);
            &&& g1.wf()
            &&& g1.w() == int_given(pm, "width"@).unwrap()
            &&& g1.h() == int_given(pm, "height"@).unwrap()
            &&& forall|x: int, y: int|
                g1.contains(x, y) ==> #[trigger] g1.at(x, y) == if g0.contains(x, y) {
                    g0.at(x, y)
                } else {
                    pad
                }
        },
        Some(EffectKind::ConnectSpanning) => spanning_result(
            g0,
            g1,
            chance_param(pm, "extra_connection_chance"@, 1801439850948199),
            seed_param(pm, "seed"@, 42),
        ),
        Some(EffectKind::Scatter) => {
            let d = chance_param(pm, "density"@, 1080863910568919);
            let sd = seed_param(pm, "seed"@, 42);
            &&& g0.grows_to(&g1)
            &&& g0.same_outside(&g1, 1, 1, w - 1, h - 1)
            &&& forall|x: int, y: int|
                1 <= x < w - 1 && 1 <= y < h - 1 ==> #[trigger] g1.at(x, y) == if below(
                    u64_draw(sd, 0, inner_index(w, x, y) as nat),
                    d,
                ) {
                    Tile::Floor
                } else {
                    g0.at(x, y)
                }
        },
        None => false,
    }
}

/// The whole number given for `key`, if any.
fn int_of(params: Option<&Params>, key: &str) -> (r: Option<usize>)
    ensures
        r == int_given(param_map(params), key@),
{
    match params {
        Some(p) => match p.get(key) {
            Some(v) => match v.int {
                Some(n) => Some(n as usize),
                None => None,
            },
            None => None,
        },
        None => None,
    }
}

/// The point given for `key`, if any.
fn point_of(params: Option<&Params>, key: &str) -> (r: Option<(usize, usize)>)
    ensures
        r == point_given(param_map(params), key@),
{
    match params {
        Some(p) => match p.get(key) {
            Some(v) => match v.point {
                Some(q) => Some((q.0 as usize, q.1 as usize)),
                None => None,
            },
            None => None,
        },
        None => None,
    }
}

/// The angle for `rotate` ([`degrees_param`]).
fn degrees_of(params: Option<&Params>) -> (r: u32)
    ensures
        r == degrees_param(param_map(params)),
{
    match params {
        Some(p) => match p.get("degrees") {
            Some(v) => match v.int {
                Some(n) => n as u32,
                None => 90,
            },
            None => 90,
        },
        None => 90,
    }
}

/// The pad tile for `resize` ([`pad_param`]).
fn pad_of(params: Option<&Params>) -> (r: Tile)
    ensures
        r == pad_param(param_map(params)),
{
    match params {
        Some(p) => match p.get("pad") {
            Some(v) => match v.cell {
                Some(t) => t,
                None => Tile::Wall,
            },
            None => match p.get("pad_value") {
                Some(v) => match v.cell {
                    Some(t) => t,
                    None => Tile::Wall,
                },
                None => Tile::Wall,
            },
        },
        None => Tile::Wall,
    }
}

/// The effect kind of a trimmed name ([`effect_kind`]).
fn kind_of(t: &Vec<char>) -> (r: Option<EffectKind>)
    ensures
        r == effect_kind(t@),
{
    if spells(t, "erode") {
        Some(EffectKind::Erode)
    } else if spells(t, "dilate") {
        Some(EffectKind::Dilate)
    } else if spells(t, "open") {
        Some(EffectKind::Open)
    } else if spells(t, "close") {
        Some(EffectKind::Close)
    } else if spells(t, "bridge_gaps") {
        Some(EffectKind::BridgeGaps)
    } else if spells(t, "remove_dead_ends") {
        Some(EffectKind::RemoveDeadEnds)
    } else if spells(t, "mirror") {
        Some(EffectKind::Mirror)
    } else if spells(t, "rotate") {
        Some(EffectKind::Rotate)
    } else if spells(t, "gaussian_blur") {
        Some(EffectKind::GaussianBlur)
    } else if spells(t, "median_filter") {
        Some(EffectKind::MedianFilter)
    } else if spells(t, "clear_rect") {
        Some(EffectKind::ClearRect)
    } else if spells(t, "invert") {
        Some(EffectKind::Invert)
    } else if spells(t, "resize") {
        Some(EffectKind::Resize)
    } else if spells(t, "connect_regions_spanning") {
        Some(EffectKind::ConnectSpanning)
    } else if spells(t, "scatter") {
        Some(EffectKind::Scatter)
    } else {
        None
    }
}

/// A square window of radius `r` has a cell count that fits in `usize`.
fn window_ok(r: usize) -> (b: bool)
    ensures
        b == window_fits(r as int),
{
    if r > (usize::MAX - 1) / 2 {
        proof {
            assert((2 * r + 1) * (2 * r + 1) > usize::MAX) by (nonlinear_arith)
                requires
                    r > (usize::MAX - 1) / 2,
            ;
        }
        return false;
    }
    let s = 2 * r + 1;
    match s.checked_mul(s) {
        Some(_) => true,
        None => false,
    }
}

/// Whether the effect named `name` with `params` can run on a `w` by `h`
/// grid ([`effect_runs`]).
pub fn effect_fits(name: &str, params: Option<&Params>, w: usize, h: usize) -> (r: bool)
    ensures
        r == effect_runs(trimmed(name@), param_map(params), w as int, h as int),
{
    let t = trim_chars(&chars_of(name));
    let m: usize = 0x7fff_ffff;
    match kind_of(&t) {
        Some(EffectKind::Erode) | Some(EffectKind::Dilate) | Some(EffectKind::Open) | Some(EffectKind::Close) => {
            w <= m && h <= m && (int_or(params, "iterations", 1) == 0 || (w >= 1 && h >= 1))
        },
        Some(EffectKind::BridgeGaps) => w <= m + 2 && h <= m + 2 - w && int_or(params, "max_distance", 5) < usize::MAX,
        Some(EffectKind::RemoveDeadEnds) => w <= m && h <= m && (int_or(params, "iterations", 3) == 0 || (h >= 1 && (
        h < 3 || w >= 1))),
        Some(EffectKind::GaussianBlur) => w <= m && h <= m && h >= 2 && (h < 3 || w >= 2) && window_ok(
            int_or(params, "radius", 1),
        ),
        Some(EffectKind::MedianFilter) => {
            let r = int_or(params, "radius", 1);
            w <= m && h <= m && r <= h && (r > h / 2 || h <= 2 * r || r <= w) && window_ok(r)
        },
        Some(EffectKind::ClearRect) => match point_of(params, "center") {
            Some(c) => {
                let cw = int_or(params, "width", 3);
                let ch = int_or(params, "height", 3);
                cw == 0 || ch == 0 || (cw <= m && ch <= m && c.0 <= m + 1 - (cw - cw / 2) && c.1 <= m + 1 - (ch
                    - ch / 2))
            },
            None => true,
        },
        Some(EffectKind::Resize) => match (int_of(params, "width"), int_of(params, "height")) {
            (Some(a), Some(b)) => a <= m && b <= m && a.checked_mul(b).is_some(),
            _ => true,
        },
        Some(EffectKind::ConnectSpanning) => w <= m && h <= m && match w.checked_mul(h) {
            Some(n) => n <= 0xffff_ffff,
            None => false,
        },
        Some(EffectKind::Scatter) => h >= 1 && (w >= 1 || h <= 2),
        Some(_) => w <= m && h <= m,
        None => true,
    }
}

/// Applies the effect named `name` (trimmed) with `params` to `grid`, as
/// [`effect_done`] says; refuses, leaving the grid as it is, with the
/// message [`effect_error`] gives.
pub fn effect(name: &str, grid: &mut Grid<Tile>, params: Option<&Params>) -> (r: Result<(), OpError>)
    requires
        old(grid).wf(),
        effect_runs(trimmed(name@), param_map(params), old(grid).w() as int, old(grid).h() as int),
    ensures
        r is Ok <==> effect_error(trimmed(name@), param_map(params)) is None,
        r matches Err(e) ==> effect_error(trimmed(name@), param_map(params)) == Some(e.text()),
        r is Err ==> *final(grid) == *old(grid),
        r is Ok ==> effect_done(trimmed(name@), param_map(params), *old(grid), *final(grid)),
{
    let t = trim_chars(&chars_of(name));
    match kind_of(&t) {
        Some(EffectKind::Erode) => {
            crate::effects::erode(grid, int_or(params, "iterations", 1));
            Ok(())
        },
        Some(EffectKind::Dilate) => {
            crate::effects::dilate(grid, int_or(params, "iterations", 1));
            Ok(())
        },
        Some(EffectKind::Open) => {
            crate::effects::open(grid, int_or(params, "iterations", 1));
            Ok(())
        },
        Some(EffectKind::Close) => {
            crate::effects::close(grid, int_or(params, "iterations", 1));
            Ok(())
        },
        Some(EffectKind::BridgeGaps) => {
            crate::effects::bridge_gaps(grid, int_or(params, "max_distance", 5));
            Ok(())
        },
        Some(EffectKind::RemoveDeadEnds) => {
            crate::effects::remove_dead_ends(grid, int_or(params, "iterations", 3));
            Ok(())
        },
        Some(EffectKind::Mirror) => {
            crate::effects::mirror(grid, flag_or(params, "horizontal", true), flag_or(params, "vertical", false));
            Ok(())
        },
        Some(EffectKind::Rotate) => {
            crate::effects::rotate(grid, degrees_of(params));
            Ok(())
        },
        Some(EffectKind::GaussianBlur) => {
            crate::effects::gaussian_blur(grid, int_or(params, "radius", 1));
            Ok(())
        },
        Some(EffectKind::MedianFilter) => {
            crate::effects::median_filter(grid, int_or(params, "radius", 1));
            Ok(())
        },
        Some(EffectKind::ClearRect) => {
            if params.is_none() {
                return Err(OpError::new(String::from_str("clear_rect requires params")));
            }
            match point_of(params, "center") {
                Some(c) => {
                    crate::effects::clear_rect(grid, c, int_or(params, "width", 3), int_or(params, "height", 3));
                    Ok(())
                },
                None => Err(OpError::new(String::from_str("clear_rect requires center: [x, y]"))),
            }
        },
        Some(EffectKind::Invert) => {
            crate::effects::invert(grid);
            Ok(())
        },
        Some(EffectKind::Resize) => {
            if params.is_none() {
                return Err(OpError::new(String::from_str("resize requires params")));
            }
            match int_of(params, "width") {
                Some(a) => match int_of(params, "height") {
                    Some(b) => {
                        crate::effects::resize(grid, a, b, pad_of(params));
                        Ok(())
                    },
                    None => Err(OpError::new(String::from_str("resize requires height"))),
                },
                None => Err(OpError::new(String::from_str("resize requires width"))),
            }
        },
        Some(EffectKind::ConnectSpanning) => {
            let mut rng = Rng::new(seed_or(params, "seed", 42));
            crate::effects::connect_regions_spanning(
                grid,
                chance_or(params, "extra_connection_chance", 1801439850948199),
                &mut rng,
            );
            Ok(())
        },
        Some(EffectKind::Scatter) => {
            crate::effects::scatter(grid, chance_or(params, "density", 1080863910568919), seed_or(params, "seed", 42));
            Ok(())
        },
        None => {
            if spells(&t, "domain_warp") || spells(&t, "clear_marker_area") || spells(&t, "connect_markers") {
                Err(OpError::new(prefixed("Effect not applied by the library: ", &t)))
            } else {
                Err(OpError::new(prefixed("Unknown effect: ", &t)))
            }
        },
    }
}

} // verus!
