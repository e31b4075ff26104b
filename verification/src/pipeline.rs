//! Pipeline context: parameters, history and stored grids passed between
//! pipeline stages.

use crate::grid::{cell_tiles, tile_cells, Grid, Tile, TileCell};
use crate::ops::{
    build_algorithm, builds_algorithm, chars_of, combine, combined, effect, effect_done, effect_error, effect_runs,
    known_algorithm, parse_count, parse_usize, trimmed, AlgorithmSpec, CombineMode, OpError, ParamValue, Params,
};
use crate::rng::Rng;
use crate::semantic_visualization::{decimal, push_char, push_decimal_wide};
use vstd::prelude::*;

verus! {

/// The map an entry list stands for; a later entry for a key wins.
pub open spec fn entries_map<V>(s: Seq<(String, V)>) -> Map<Seq<char>, V>
    decreases s.len(),
{
    if s.len() == 0 {
        Map::empty()
    } else {
        entries_map(s.drop_last()).insert(s.last().0@, s.last().1)
    }
}

/// No two entries share a key.
pub open spec fn keys_unique<V>(s: Seq<(String, V)>) -> bool {
    forall|i: int, j: int| 0 <= i < j < s.len() ==> (#[trigger] s[i]).0@ != (#[trigger] s[j]).0@
}

/// The entries' map holds exactly their keys, each with its entry's value.
pub proof fn lemma_entries_map<V>(s: Seq<(String, V)>)
    requires
        keys_unique(s),
    ensures
        forall|k: Seq<char>| #[trigger] entries_map(s).contains_key(k) <==> exists|i: int| 0 <= i < s.len() && s[i].0@ == k,
        forall|i: int| 0 <= i < s.len() ==> #[trigger] entries_map(s)[s[i].0@] == s[i].1,
    decreases s.len(),
{
    if s.len() > 0 {
        let d = s.drop_last();
        assert forall|i: int, j: int| 0 <= i < j < d.len() implies (#[trigger] d[i]).0@ != (#[trigger] d[j]).0@ by {
            assert(d[i] == s[i] && d[j] == s[j]);
        }
        lemma_entries_map(d);
        assert(entries_map(s) == entries_map(d).insert(s.last().0@, s.last().1));
        assert forall|k: Seq<char>| #[trigger] entries_map(s).contains_key(k) <==> exists|i: int|
            0 <= i < s.len() && s[i].0@ == k by {
            if entries_map(s).contains_key(k) && k != s.last().0@ {
                assert(entries_map(d).contains_key(k));
                let i = choose|i: int| 0 <= i < d.len() && d[i].0@ == k;
                assert(s[i] == d[i]);
            }
            if exists|i: int| 0 <= i < s.len() && s[i].0@ == k {
                let i = choose|i: int| 0 <= i < s.len() && s[i].0@ == k;
                if i < d.len() {
                    assert(d[i] == s[i]);
                }
            }
        }
        assert forall|i: int| 0 <= i < s.len() implies #[trigger] entries_map(s)[s[i].0@] == s[i].1 by {
            if i < d.len() {
                assert(d[i] == s[i]);
                assert(s[i].0@ != s[s.len() - 1].0@);
            }
        }
    }
}

/// Replacing the value of an existing key in place changes only that key.
pub proof fn lemma_entries_map_update<V>(s: Seq<(String, V)>, i: int, e: (String, V))
    requires
        keys_unique(s),
        0 <= i < s.len(),
        s[i].0@ == e.0@,
    ensures
        entries_map(s.update(i, e)) == entries_map(s).insert(e.0@, e.1),
        keys_unique(s.update(i, e)),
    decreases s.len(),
{
    let u = s.update(i, e);
    assert forall|a: int, b: int| 0 <= a < b < u.len() implies (#[trigger] u[a]).0@ != (#[trigger] u[b]).0@ by {
        assert(u[a].0@ == s[a].0@);
        assert(u[b].0@ == s[b].0@);
    }
    let d = s.drop_last();
    if i == s.len() - 1 {
        assert(u.drop_last() =~= d);
        assert(entries_map(u) =~= entries_map(s).insert(e.0@, e.1));
    } else {
        assert(u.drop_last() =~= d.update(i, e));
        assert forall|a: int, b: int| 0 <= a < b < d.len() implies (#[trigger] d[a]).0@ != (#[trigger] d[b]).0@ by {
            assert(d[a] == s[a] && d[b] == s[b]);
        }
        lemma_entries_map_update(d, i, e);
        assert(s[i].0@ != s[s.len() - 1].0@);
        assert(entries_map(u) =~= entries_map(s).insert(e.0@, e.1));
    }
}

/// A map keyed by strings, kept as a list of entries in order of first
/// insertion.
#[derive(Debug)]
pub struct Keyed<V> {
    entries: Vec<(String, V)>,
}

/// A map from strings to strings.
pub type StringMap = Keyed<String>;

impl<V> Keyed<V> {
    #[verifier::type_invariant]
    closed spec fn unique(self) -> bool {
        keys_unique(self.entries@)
    }

    /// The map this list stands for.
    pub closed spec fn view(&self) -> Map<Seq<char>, V> {
        entries_map(self.entries@)
    }

    /// The keys in order of first insertion.
    pub closed spec fn key_order(&self) -> Seq<Seq<char>> {
        self.entries@.map_values(|e: (String, V)| e.0@)
    }

    /// The empty map.
    pub fn new() -> (m: Keyed<V>)
        ensures
            m.view() == Map::<Seq<char>, V>::empty(),
            m.key_order() == Seq::<Seq<char>>::empty(),
    {
        let m = Keyed { entries: Vec::new() };
        assert(m.key_order() =~= Seq::<Seq<char>>::empty());
        m
    }

    /// Position of the entry for `key`, if any.
    fn find(&self, key: &str) -> (r: Option<usize>)
        ensures
            match r {
                Some(i) => i < self.entries@.len() && self.entries@[i as int].0@ == key@,
                None => forall|i: int| 0 <= i < self.entries@.len() ==> self.entries@[i].0@ != key@,
            },
    {
        let k = String::from_str(key);
        let mut i: usize = 0;
        while i < self.entries.len()
            invariant
                i <= self.entries@.len(),
                k@ == key@,
                forall|j: int| 0 <= j < i ==> self.entries@[j].0@ != key@,
            decreases self.entries@.len() - i,
        {
            if self.entries[i].0 == k {
                return Some(i);
            }
            i = i + 1;
        }
        None
    }

    /// Sets `key` to `value`; a new key goes last in the key order.
    pub fn insert(&mut self, key: &str, value: V)
        ensures
            final(self).view() == old(self).view().insert(key@, value),
            final(self).key_order() == if old(self).view().contains_key(key@) {
                old(self).key_order()
            } else {
                old(self).key_order().push(key@)
            },
    {
        proof {
            use_type_invariant(&*self);
            lemma_entries_map(self.entries@);
        }
        let ghost s = self.entries@;
        let found = self.find(key);
        let mut es: Vec<(String, V)> = Vec::new();
        std::mem::swap(&mut es, &mut self.entries);
        let e = (String::from_str(key), value);
        match found {
            Some(i) => {
                proof {
                    lemma_entries_map_update(s, i as int, e);
                }
                es.set(i, e);
                proof {
                    assert(es@.map_values(|e: (String, V)| e.0@) =~= s.map_values(|e: (String, V)| e.0@));
                }
            },
            None => {
                es.push(e);
                proof {
                    assert(es@.drop_last() =~= s);
                    assert forall|a: int, b: int| 0 <= a < b < es@.len() implies (#[trigger] es@[a]).0@ != (
                    #[trigger] es@[b]).0@ by {
                        if b < s.len() {
                            assert(es@[a] == s[a] && es@[b] == s[b]);
                        } else {
                            assert(es@[a] == s[a]);
                        }
                    }
                    assert(es@.map_values(|e: (String, V)| e.0@) =~= s.map_values(|e: (String, V)| e.0@).push(key@));
                }
            },
        }
        self.entries = es;
    }

    /// The value of `key`, if present.
    pub fn get(&self, key: &str) -> (r: Option<&V>)
        ensures
            match r {
                Some(v) => self.view().contains_key(key@) && *v == self.view()[key@],
                None => !self.view().contains_key(key@),
            },
    {
        proof {
            use_type_invariant(self);
            lemma_entries_map(self.entries@);
        }
        match self.find(key) {
            Some(i) => Some(&self.entries[i].1),
            None => None,
        }
    }

    /// Number of keys.
    pub fn len(&self) -> (r: usize)
        ensures
            r == self.key_order().len(),
    {
        self.entries.len()
    }
}

impl Keyed<String> {
    /// Copies of the entries, in key order.
    pub fn pairs(&self) -> (r: Vec<(String, String)>)
        ensures
            r@.len() == self.key_order().len(),
            forall|i: int|
                0 <= i < r@.len() ==> (#[trigger] r@[i]).0@ == self.key_order()[i] && self.view().contains_key(
                    self.key_order()[i],
                ) && r@[i].1@ == self.view()[self.key_order()[i]]@,
    {
        proof {
            use_type_invariant(self);
            lemma_entries_map(self.entries@);
        }
        let n = self.entries.len();
        let mut out: Vec<(String, String)> = Vec::with_capacity(n);
        let mut i: usize = 0;
        while i < n
            invariant
                i <= n,
                n == self.entries@.len(),
                out@.len() == i,
                forall|j: int|
                    0 <= j < i ==> (#[trigger] out@[j]).0@ == self.entries@[j].0@ && out@[j].1@ == self.entries@[j].1@,
            decreases n - i,
        {
            let k = self.entries[i].0.clone();
            let v = self.entries[i].1.clone();
            out.push((k, v));
            i = i + 1;
        }
        proof {
            assert forall|i: int| 0 <= i < out@.len() implies (#[trigger] out@[i]).0@ == self.key_order()[i]
                && self.view().contains_key(self.key_order()[i]) && out@[i].1@ == self.view()[self.key_order()[i]]@ by {
                assert(self.key_order()[i] == self.entries@[i].0@);
                assert(self.view()[self.entries@[i].0@] == self.entries@[i].1);
            }
        }
        out
    }

    /// Copies every entry of `other` in, in `other`'s key order, so that
    /// `other`'s values win.
    pub fn extend(&mut self, other: &Keyed<String>)
        ensures
            final(self).view() == old(self).view().union_prefer_right(other.view()),
    {
        proof {
            use_type_invariant(other);
        }
        let n = other.entries.len();
        let mut i: usize = 0;
        while i < n
            invariant
                i <= n,
                n == other.entries@.len(),
                keys_unique(other.entries@),
                self.view() == old(self).view().union_prefer_right(entries_map(other.entries@.take(i as int))),
            decreases n - i,
        {
            let key = other.entries[i].0.as_str();
            let value = other.entries[i].1.clone();
            self.insert(key, value);
            proof {
                let t = other.entries@.take(i + 1);
                assert(t.drop_last() =~= other.entries@.take(i as int));
                assert(self.view() =~= old(self).view().union_prefer_right(entries_map(t)));
            }
            i = i + 1;
        }
        proof {
            assert(other.entries@.take(n as int) =~= other.entries@);
        }
    }
}

/// Context for passing data between pipeline stages.
#[derive(Debug)]
pub struct PipelineContext {
    /// Key-value parameters passed between stages.
    parameters: StringMap,
    /// Stage execution history.
    execution_log: Vec<String>,
    /// Current iteration count for loops.
    iteration_count: usize,
    /// Named grids for combine steps.
    grids: Keyed<Grid<Tile>>,
}

impl PipelineContext {
    /// The parameters set so far.
    pub closed spec fn params(&self) -> Map<Seq<char>, String> {
        self.parameters.view()
    }

    /// The logged stage names, oldest first.
    pub closed spec fn log(&self) -> Seq<String> {
        self.execution_log@
    }

    /// The iteration counter.
    pub closed spec fn iterations(&self) -> nat {
        self.iteration_count as nat
    }

    /// The stored grids by name.
    pub closed spec fn stored(&self) -> Map<Seq<char>, Grid<Tile>> {
        self.grids.view()
    }

    /// An empty context: no parameters, no history, no iterations, no grids.
    pub fn new() -> (c: PipelineContext)
        ensures
            c.params() == Map::<Seq<char>, String>::empty(),
            c.log() == Seq::<String>::empty(),
            c.iterations() == 0,
            c.stored() == Map::<Seq<char>, Grid<Tile>>::empty(),
    {
        PipelineContext {
            parameters: Keyed::new(),
            execution_log: Vec::new(),
            iteration_count: 0,
            grids: Keyed::new(),
        }
    }

    /// Sets parameter `key` to `value`.
    pub fn set_parameter(&mut self, key: &str, value: &str)
        ensures
            final(self).params().dom() == old(self).params().dom().insert(key@),
            final(self).params()[key@]@ == value@,
            forall|k: Seq<char>| k != key@ && #[trigger] old(self).params().contains_key(k) ==> final(self).params()[k]
                == old(self).params()[k],
            final(self).log() == old(self).log(),
            final(self).iterations() == old(self).iterations(),
            final(self).stored() == old(self).stored(),
    {
        let v = String::from_str(value);
        self.parameters.insert(key, v);
    }

    /// The value of parameter `key`, if set.
    pub fn get_parameter(&self, key: &str) -> (r: Option<&String>)
        ensures
            match r {
                Some(v) => self.params().contains_key(key@) && *v == self.params()[key@],
                None => !self.params().contains_key(key@),
            },
    {
        self.parameters.get(key)
    }

    /// Appends `stage` to the execution history.
    pub fn log_execution(&mut self, stage: &str)
        ensures
            final(self).log().len() == old(self).log().len() + 1,
            final(self).log().drop_last() == old(self).log(),
            final(self).log().last()@ == stage@,
            final(self).params() == old(self).params(),
            final(self).iterations() == old(self).iterations(),
            final(self).stored() == old(self).stored(),
    {
        self.execution_log.push(String::from_str(stage));
        proof {
            assert(self.execution_log@.drop_last() =~= old(self).execution_log@);
        }
    }

    /// The execution history, oldest first.
    pub fn execution_history(&self) -> (r: &[String])
        ensures
            r@ == self.log(),
    {
        self.execution_log.as_slice()
    }

    /// Adds one to the iteration counter.
    pub fn increment_iteration(&mut self)
        requires
            old(self).iterations() < usize::MAX,
        ensures
            final(self).iterations() == old(self).iterations() + 1,
            final(self).params() == old(self).params(),
            final(self).log() == old(self).log(),
            final(self).stored() == old(self).stored(),
    {
        self.iteration_count = self.iteration_count + 1;
    }

    /// The iteration counter.
    pub fn iteration_count(&self) -> (r: usize)
        ensures
            r == self.iterations(),
    {
        self.iteration_count
    }

    /// Stores `grid` under `key`, replacing a grid stored there before.
    pub fn store_grid(&mut self, key: &str, grid: Grid<Tile>)
        ensures
            final(self).stored() == old(self).stored().insert(key@, grid),
            final(self).params() == old(self).params(),
            final(self).log() == old(self).log(),
            final(self).iterations() == old(self).iterations(),
    {
        self.grids.insert(key, grid);
    }

    /// The grid stored under `key`, if any.
    pub fn get_grid(&self, key: &str) -> (r: Option<&Grid<Tile>>)
        ensures
            match r {
                Some(g) => self.stored().contains_key(key@) && *g == self.stored()[key@],
                None => !self.stored().contains_key(key@),
            },
    {
        self.grids.get(key)
    }
}

/// `value` lies within the optional lower and upper limits, both included.
pub open spec fn within_limits(value: int, min: Option<usize>, max: Option<usize>) -> bool {
    &&& (min matches Some(m) ==> value >= m)
    &&& (max matches Some(m) ==> value <= m)
}

/// Whether `value` lies within the optional limits (see [`within_limits`]).
pub fn check_limits(value: usize, min: Option<usize>, max: Option<usize>) -> (r: bool)
    ensures
        r == within_limits(value as int, min, max),
{
    if let Some(m) = min {
        if value < m {
            return false;
        }
    }
    if let Some(m) = max {
        if value > m {
            return false;
        }
    }
    true
}

/// The floor-count condition: the number of floor cells of `grid` lies
/// within the limits.
pub fn floor_count_within(grid: &Grid<Tile>, min: Option<usize>, max: Option<usize>) -> (r: bool)
    requires
        grid.wf(),
    ensures
        r == within_limits(grid.passable_count() as int, min, max),
{
    check_limits(grid.count_passable(), min, max)
}

/// The region count a pipeline reports: its `region_count` parameter read
/// as a count (`usize::from_str`), or 0 when it is missing or not a count.
pub open spec fn region_count_param(params: Map<Seq<char>, String>) -> int {
    if params.contains_key("region_count"@) {
        match parse_usize(params["region_count"@]@) {
            Some(n) => n as int,
            None => 0,
        }
    } else {
        0
    }
}

/// The region-count condition: the region count the context reports (see
/// [`region_count_param`]) lies within the limits.
pub fn region_count_within(context: &PipelineContext, min: Option<usize>, max: Option<usize>) -> (r: bool)
    ensures
        r == within_limits(region_count_param(context.params()), min, max),
{
    let count = match context.get_parameter("region_count") {
        Some(v) => match parse_count(&chars_of(v.as_str())) {
            Some(n) => n,
            None => 0,
        },
        None => 0,
    };
    check_limits(count, min, max)
}

/// The connectivity condition: `grid` has a floor cell exactly when
/// `required` is set.
pub fn connected_holds(grid: &Grid<Tile>, required: bool) -> (r: bool)
    requires
        grid.wf(),
    ensures
        r == ((grid.passable_count() > 0) == required),
{
    (grid.count_passable() > 0) == required
}

/// Result from a pipeline stage execution.
#[derive(Debug)]
pub struct StageResult {
    /// Whether the stage succeeded.
    pub success: bool,
    /// Optional message about execution.
    pub message: Option<String>,
    /// Parameters to pass to the next stage.
    pub output_parameters: StringMap,
}

impl StageResult {
    /// A success with no message and no parameters.
    pub fn success() -> (r: StageResult)
        ensures
            r.success,
            r.message is None,
            r.output_parameters.view() == Map::<Seq<char>, String>::empty(),
    {
        StageResult { success: true, message: None, output_parameters: Keyed::new() }
    }

    /// A success carrying `message`.
    pub fn success_with_message(message: &str) -> (r: StageResult)
        ensures
            r.success,
            r.message matches Some(m) && m@ == message@,
            r.output_parameters.view() == Map::<Seq<char>, String>::empty(),
    {
        StageResult { success: true, message: Some(String::from_str(message)), output_parameters: Keyed::new() }
    }

    /// A failure carrying `message`.
    pub fn failure(message: &str) -> (r: StageResult)
        ensures
            !r.success,
            r.message matches Some(m) && m@ == message@,
            r.output_parameters.view() == Map::<Seq<char>, String>::empty(),
    {
        StageResult { success: false, message: Some(String::from_str(message)), output_parameters: Keyed::new() }
    }

    /// The same result with output parameter `key` set to `value`.
    pub fn with_parameter(self, key: &str, value: &str) -> (r: StageResult)
        ensures
            r.success == self.success,
            r.message == self.message,
            r.output_parameters.view().dom() == self.output_parameters.view().dom().insert(key@),
            r.output_parameters.view()[key@]@ == value@,
            forall|k: Seq<char>|
                k != key@ && #[trigger] self.output_parameters.view().contains_key(k) ==> r.output_parameters.view()[k]
                    == self.output_parameters.view()[k],
    {
        let mut r = self;
        r.output_parameters.insert(key, String::from_str(value));
        r
    }
}

/// Parameters of several pipeline branches, branches in order of first
/// insertion.
#[derive(Debug)]
pub struct ParameterMap {
    branch_parameters: Keyed<StringMap>,
}

/// Folds branch parameter maps in order, later ones overriding earlier ones.
pub open spec fn merge_in_order(ms: Seq<Map<Seq<char>, String>>) -> Map<Seq<char>, String>
    decreases ms.len(),
{
    if ms.len() == 0 {
        Map::empty()
    } else {
        merge_in_order(ms.drop_last()).union_prefer_right(ms.last())
    }
}

impl ParameterMap {
    /// The branches' parameter maps by branch name.
    pub closed spec fn branches(&self) -> Map<Seq<char>, Map<Seq<char>, String>> {
        self.branch_parameters.view().map_values(|m: StringMap| m.view())
    }

    /// The branch names in order of first insertion.
    pub closed spec fn branch_order(&self) -> Seq<Seq<char>> {
        self.branch_parameters.key_order()
    }

    /// No branches.
    pub fn new() -> (p: ParameterMap)
        ensures
            p.branches() == Map::<Seq<char>, Map<Seq<char>, String>>::empty(),
            p.branch_order() == Seq::<Seq<char>>::empty(),
    {
        let p = ParameterMap { branch_parameters: Keyed::new() };
        assert(p.branches() =~= Map::<Seq<char>, Map<Seq<char>, String>>::empty());
        p
    }

    /// Sets the parameters of branch `branch_name`; a new branch goes last.
    pub fn add_branch(&mut self, branch_name: &str, parameters: StringMap)
        ensures
            final(self).branches() == old(self).branches().insert(branch_name@, parameters.view()),
            final(self).branch_order() == if old(self).branches().contains_key(branch_name@) {
                old(self).branch_order()
            } else {
                old(self).branch_order().push(branch_name@)
            },
    {
        let ghost pv = parameters.view();
        self.branch_parameters.insert(branch_name, parameters);
        proof {
            assert(self.branches() =~= old(self).branches().insert(branch_name@, pv));
        }
    }

    /// The parameters of branch `branch_name`, if present.
    pub fn get_branch(&self, branch_name: &str) -> (r: Option<&StringMap>)
        ensures
            match r {
                Some(m) => self.branches().contains_key(branch_name@) && m.view() == self.branches()[branch_name@],
                None => !self.branches().contains_key(branch_name@),
            },
    {
        self.branch_parameters.get(branch_name)
    }

    /// The branches' parameter maps in branch order.
    pub open spec fn ordered_maps(&self) -> Seq<Map<Seq<char>, String>> {
        Seq::new(self.branch_order().len(), |i: int| self.branches()[self.branch_order()[i]])
    }

    /// All branches' parameters merged in branch order, later branches
    /// overriding earlier ones.
    pub fn merge_all(&self) -> (r: StringMap)
        ensures
            r.view() == merge_in_order(self.ordered_maps()),
    {
        proof {
            use_type_invariant(&self.branch_parameters);
            lemma_entries_map(self.branch_parameters.entries@);
        }
        let ghost es = self.branch_parameters.entries@;
        let ghost ms = self.ordered_maps();
        let n = self.branch_parameters.entries.len();
        let mut merged: StringMap = Keyed::new();
        let mut i: usize = 0;
        while i < n
            invariant
                i <= n,
                n == es.len(),
                es == self.branch_parameters.entries@,
                ms == self.ordered_maps(),
                ms.len() == n,
                forall|j: int| 0 <= j < n ==> #[trigger] ms[j] == es[j].1.view(),
                merged.view() == merge_in_order(ms.take(i as int)),
            decreases n - i,
        {
            merged.extend(&self.branch_parameters.entries[i].1);
            proof {
                assert(ms.take(i + 1).drop_last() =~= ms.take(i as int));
            }
            i = i + 1;
        }
        proof {
            assert(ms.take(n as int) =~= ms);
        }
        merged
    }
}

/// Pipeline operation types.
#[derive(Debug)]
pub enum PipelineOperation {
    /// Execute algorithm with given name and seed.
    Algorithm { name: String, seed: Option<u64> },
    /// Apply effect with parameters.
    Effect { name: String, parameters: StringMap },
    /// Set context parameter.
    SetParameter { key: String, value: String },
    /// Log message to context.
    Log { message: String },
}


/// `s` with every occurrence of the non-empty `pat` replaced by `rep`, taking
/// occurrences left to right and never letting two of them overlap.
pub open spec fn replaced(s: Seq<char>, pat: Seq<char>, rep: Seq<char>) -> Seq<char>
    recommends
        pat.len() > 0,
    decreases s.len(),
{
    if pat.len() == 0 || s.len() < pat.len() {
        s
    } else if s.take(pat.len() as int) == pat {
        rep + replaced(s.skip(pat.len() as int), pat, rep)
    } else {
        seq![s[0]] + replaced(s.skip(1), pat, rep)
    }
}

/// The placeholder that stands for parameter `key` in a template: `{key}`.
pub open spec fn placeholder(key: Seq<char>) -> Seq<char> {
    seq!['{'] + key + seq!['}']
}

/// `s` after replacing the placeholder of each parameter by its value, one
/// parameter after another in the order of the list.
pub open spec fn substituted(s: Seq<char>, params: Seq<(String, String)>) -> Seq<char>
    decreases params.len(),
{
    if params.len() == 0 {
        s
    } else {
        replaced(substituted(s, params.drop_last()), placeholder(params.last().0@), params.last().1@)
    }
}

/// Whether `pat` occurs in `s` starting at position `i`.
fn occurs_at(s: &Vec<char>, pat: &Vec<char>, i: usize) -> (r: bool)
    requires
        i + pat.len() <= s.len(),
    ensures
        r == (s@.subrange(i as int, i + pat.len()) == pat@),
{
    let n = pat.len();
    let mut j: usize = 0;
    while j < n
        invariant
            n == pat.len(),
            i + n <= s.len(),
            j <= n,
            forall|k: int| 0 <= k < j ==> s@[i + k] == pat@[k],
        decreases n - j,
    {
        if s[i + j] != pat[j] {
            proof {
                assert(s@.subrange(i as int, i + n)[j as int] != pat@[j as int]);
            }
            return false;
        }
        j = j + 1;
    }
    proof {
        assert(s@.subrange(i as int, i + n) =~= pat@);
    }
    true
}

/// Replaces every occurrence of `pat` in `s` by `rep`, as [`replaced`] says.
fn replace_all(s: &Vec<char>, pat: &Vec<char>, rep: &Vec<char>) -> (r: Vec<char>)
    requires
        pat.len() > 0,
    ensures
        r@ == replaced(s@, pat@, rep@),
{
    let n = s.len();
    let m = pat.len();
    let mut out: Vec<char> = Vec::new();
    let mut i: usize = 0;
    proof {
        assert(s@.skip(0) =~= s@);
        assert(out@ + s@ =~= s@);
    }
    while i < n
        invariant
            n == s.len(),
            m == pat.len(),
            m > 0,
            i <= n,
            out@ + replaced(s@.skip(i as int), pat@, rep@) == replaced(s@, pat@, rep@),
        decreases n - i,
    {
        let rest = Ghost(s@.skip(i as int));
        if m <= n - i && occurs_at(s, pat, i) {
            proof {
                assert(rest@.take(m as int) =~= s@.subrange(i as int, i + m));
                assert(rest@.skip(m as int) =~= s@.skip(i + m));
            }
            let mut k: usize = 0;
            let ghost before = out@;
            while k < rep.len()
                invariant
                    k <= rep.len(),
                    out@ == before + rep@.take(k as int),
                decreases rep.len() - k,
            {
                proof {
                    assert(rep@.take(k + 1) =~= rep@.take(k as int).push(rep@[k as int]));
                }
                out.push(rep[k]);
                k = k + 1;
            }
            proof {
                assert(rep@.take(rep.len() as int) =~= rep@);
                assert(out@ + replaced(s@.skip(i + m), pat@, rep@) =~= before + replaced(rest@, pat@, rep@));
            }
            i = i + m;
        } else {
            proof {
                assert(rest@.skip(1) =~= s@.skip(i + 1));
                if m <= n - i {
                    assert(rest@.take(m as int) =~= s@.subrange(i as int, i + m));
                }
                assert(rest@[0] == s@[i as int]);
                assert(out@.push(s@[i as int]) + replaced(s@.skip(i + 1), pat@, rep@) =~= out@ + replaced(
                    rest@,
                    pat@,
                    rep@,
                ));
            }
            out.push(s[i]);
            i = i + 1;
        }
    }
    proof {
        assert(s@.skip(n as int) =~= Seq::<char>::empty());
        assert(out@ + Seq::<char>::empty() =~= out@);
    }
    out
}

/// `input` with the placeholder `{key}` of each parameter replaced by its
/// value, parameter after parameter in the order of `params`.
pub fn substitute_string(input: &str, params: &Vec<(String, String)>) -> (r: String)
    ensures
        r@ == substituted(input@, params@),
{
    let mut cur = crate::ops::chars_of(input);
    let mut p: usize = 0;
    while p < params.len()
        invariant
            p <= params.len(),
            cur@ == substituted(input@, params@.take(p as int)),
        decreases params.len() - p,
    {
        let key = crate::ops::chars_of(params[p].0.as_str());
        let value = crate::ops::chars_of(params[p].1.as_str());
        let mut pat: Vec<char> = Vec::new();
        pat.push('{');
        let mut k: usize = 0;
        while k < key.len()
            invariant
                k <= key.len(),
                pat@ == seq!['{'] + key@.take(k as int),
            decreases key.len() - k,
        {
            proof {
                assert(key@.take(k + 1) =~= key@.take(k as int).push(key@[k as int]));
                assert(seq!['{'] + key@.take(k + 1) =~= (seq!['{'] + key@.take(k as int)).push(key@[k as int]));
            }
            pat.push(key[k]);
            k = k + 1;
        }
        pat.push('}');
        proof {
            assert(key@.take(key.len() as int) =~= key@);
            assert(pat@ =~= placeholder(params@[p as int].0@));
            assert(params@.take(p + 1).drop_last() =~= params@.take(p as int));
            assert(params@.take(p + 1).last() == params@[p as int]);
        }
        cur = replace_all(&cur, &pat, &value);
        p = p + 1;
    }
    proof {
        assert(params@.take(params.len() as int) =~= params@);
    }
    let mut out = String::new();
    let mut i: usize = 0;
    while i < cur.len()
        invariant
            i <= cur.len(),
            out@ == cur@.take(i as int),
        decreases cur.len() - i,
    {
        proof {
            assert(cur@.take(i + 1) =~= cur@.take(i as int).push(cur@[i as int]));
        }
        crate::semantic_visualization::push_char(&mut out, cur[i]);
        i = i + 1;
    }
    proof {
        assert(cur@.take(cur.len() as int) =~= cur@);
    }
    out
}

/// Where a combine step takes the other grid from.
pub enum CombineSource {
    /// A given grid.
    Grid(Grid<Tile>),
    /// A fresh wall grid of the current size, run through a named algorithm.
    Algorithm { name: String, seed: Option<u64>, params: Option<Params> },
    /// A grid stored in the context under this key.
    Saved(String),
}

/// A step of a pipeline that the library runs. Conditional steps are
/// decided by their caller, who evaluates the condition and runs the
/// chosen branch step by step.
pub enum Step {
    Algorithm { name: String, seed: Option<u64>, params: Option<Params> },
    Effect { name: String, params: Option<Params> },
    Combine { mode: CombineMode, source: CombineSource },
    StoreGrid { key: String },
    SetParameter { key: String, value: String },
    Log { message: String },
}

/// The name a combine mode is logged with.
pub open spec fn mode_text(mode: CombineMode) -> Seq<char> {
    match mode {
        CombineMode::Replace => "Replace"@,
        CombineMode::Union => "Union"@,
        CombineMode::Intersect => "Intersect"@,
        CombineMode::Mask => "Mask"@,
        CombineMode::Difference => "Difference"@,
    }
}

/// The log line of an algorithm step: `Algorithm: <name> (seed: <seed>)`.
pub open spec fn algorithm_line(name: Seq<char>, seed: u64) -> Seq<char> {
    "Algorithm: "@ + name + " (seed: "@ + decimal(seed as nat) + ")"@
}

/// Every generator that the name and parameters build can run on a `w` by
/// `h` grid.
pub open spec fn algorithm_runs(name: Seq<char>, pm: Option<Map<Seq<char>, ParamValue>>, w: int, h: int) -> bool {
    forall|a: AlgorithmSpec| #[trigger] builds_algorithm(trimmed(name), pm, a) ==> a.runs_on(w, h)
}

/// The parameters of a step as a map, where they are given.
pub open spec fn step_params(params: &Option<Params>) -> Option<Map<Seq<char>, ParamValue>> {
    match params {
        Some(p) => Some(p.view()),
        None => None,
    }
}

/// `step` can run on a `w` by `h` grid with the grids stored in `stored`.
pub open spec fn step_runs(step: &Step, w: int, h: int, stored: Map<Seq<char>, Grid<Tile>>) -> bool {
    match step {
        Step::Algorithm { name, params, .. } => algorithm_runs(name@, step_params(params), w, h),
        Step::Effect { name, params } => effect_runs(trimmed(name@), step_params(params), w, h),
        Step::Combine { source, .. } => w <= i32::MAX && h <= i32::MAX && match source {
            CombineSource::Grid(o) => o.wf(),
            CombineSource::Algorithm { name, params, .. } => w * h <= usize::MAX && algorithm_runs(
                name@,
                step_params(params),
                w,
                h,
            ),
            CombineSource::Saved(key) => stored.contains_key(key@) ==> stored[key@].wf(),
        },
        _ => true,
    }
}

/// The other grid holds `other` and the current grid is their combination.
pub open spec fn combined_into(mode: CombineMode, g0: Grid<Tile>, other: Grid<Tile>, g1: Grid<Tile>) -> bool {
    &&& g1.wf()
    &&& g1.w() == g0.w()
    &&& g1.h() == g0.h()
    &&& forall|x: int, y: int|
        g0.contains(x, y) ==> #[trigger] g1.at(x, y) == if other.contains(x, y) {
            combined(mode, g0.at(x, y), other.at(x, y))
        } else {
            g0.at(x, y)
        }
}

/// Appends the characters of `s`.
fn push_text(out: &mut String, s: &str)
    ensures
        final(out)@ == old(out)@ + s@,
{
    let cs = chars_of(s);
    let ghost start = out@;
    let mut i: usize = 0;
    while i < cs.len()
        invariant
            i <= cs@.len(),
            cs@ == s@,
            out@ == start + cs@.take(i as int),
        decreases cs@.len() - i,
    {
        push_char(out, cs[i]);
        proof {
            assert(start + cs@.take(i + 1) =~= start + cs@.take(i as int) + seq![cs@[i as int]]);
        }
        i = i + 1;
    }
    proof {
        assert(cs@.take(cs@.len() as int) =~= cs@);
    }
}

/// `c` holds the tiles of `g` as tile cells, position by position.
pub open spec fn tiles_as_cells(g: Grid<Tile>, c: Grid<TileCell>) -> bool {
    &&& g.wf()
    &&& c.wf()
    &&& c.w() == g.w()
    &&& c.h() == g.h()
    &&& forall|x: int, y: int| g.contains(x, y) ==> #[trigger] c.at(x, y).tile == g.at(x, y)
}

/// Running `a` with `seed` on the tiles of `g0` can give `g1`: the tile-cell grids of
/// both are a start and a result that the generator allows
/// ([`AlgorithmSpec::outcome`]).
pub open spec fn runs_to(a: AlgorithmSpec, seed: u64, g0: Grid<Tile>, g1: Grid<Tile>) -> bool {
    exists|c0: Grid<TileCell>, c1: Grid<TileCell>|
        #![trigger tiles_as_cells(g0, c0), tiles_as_cells(g1, c1)]
        tiles_as_cells(g0, c0) && tiles_as_cells(g1, c1) && a.outcome(seed, c0, c1)
}

/// `g` is a fresh all-wall grid of `w` by `h` cells.
pub open spec fn fresh_walls(g: Grid<Tile>, w: int, h: int) -> bool {
    &&& g.wf()
    &&& g.w() == w
    &&& g.h() == h
    &&& forall|x: int, y: int| g.contains(x, y) ==> #[trigger] g.at(x, y) == Tile::Wall
}

/// Runs the generator on a tile grid.
fn run_on_tiles(a: AlgorithmSpec, grid: &mut Grid<Tile>, seed: u64)
    requires
        old(grid).wf(),
        a.runs_on(old(grid).w() as int, old(grid).h() as int),
    ensures
        final(grid).wf(),
        final(grid).w() == old(grid).w(),
        final(grid).h() == old(grid).h(),
        runs_to(a, seed, *old(grid), *final(grid)),
{
    let ghost g0 = *grid;
    let ghost a0 = a;
    let mut cells = tile_cells(grid);
    let ghost c0 = cells;
    a.generate(&mut cells, seed);
    *grid = cell_tiles(&cells);
    proof {
        assert forall|x: int, y: int| g0.contains(x, y) implies #[trigger] c0.at(x, y).tile == g0.at(x, y) by {
            crate::grid::lemma_cell_index_bounds(g0.w() as int, g0.h() as int, x, y);
        }
        assert forall|x: int, y: int| grid.contains(x, y) implies #[trigger] cells.at(x, y).tile == grid.at(x, y) by {
            crate::grid::lemma_cell_index_bounds(grid.w() as int, grid.h() as int, x, y);
        }
        assert(tiles_as_cells(g0, c0));
        assert(tiles_as_cells(*grid, cells));
        assert(a0.outcome(seed, c0, cells));
    }
}

/// Runs one pipeline step on `grid`, taking a seed from `rng` where an
/// algorithm step or source names none:
/// - an algorithm step builds the named generator ([`build_algorithm`]),
///   runs it and logs `Algorithm: <name> (seed: <seed>)`;
/// - an effect step applies the named effect ([`effect`]) and logs
///   `Effect: <name>`;
/// - a combine step merges the other grid in ([`combine`]) and logs
///   `Combine: <mode>`; a missing stored grid is refused with
///   `Unknown saved grid: <key>`;
/// - the other steps store a copy of the grid, set a parameter or log
///   their message.
/// A refused step changes neither the grid nor the context.
pub fn execute_step(step: &Step, grid: &mut Grid<Tile>, context: &mut PipelineContext, rng: &mut Rng) -> (r: Result<
    (),
    OpError,
>)
    requires
        old(grid).wf(),
        step_runs(step, old(grid).w() as int, old(grid).h() as int, old(context).stored()),
    ensures
        final(grid).wf(),
        r is Err ==> *final(grid) == *old(grid),
        r is Err ==> final(context).log() == old(context).log(),
        r is Err ==> final(context).params() == old(context).params(),
        r is Err ==> final(context).stored() == old(context).stored(),
        r is Ok ==> final(context).iterations() == old(context).iterations(),
        match step {
            Step::Algorithm { name, seed, params } => {
                &&& (r is Ok <==> known_algorithm(trimmed(name@)))
                &&& r matches Err(e) ==> e.text() == "Unknown algorithm: "@ + trimmed(name@)
                &&& r is Ok ==> {
                    &&& final(grid).w() == old(grid).w()
                    &&& final(grid).h() == old(grid).h()
                    &&& final(context).params() == old(context).params()
                    &&& final(context).stored() == old(context).stored()
                    &&& final(context).log().drop_last() == old(context).log()
                    &&& exists|a: AlgorithmSpec, s: u64|
                        #![trigger builds_algorithm(trimmed(name@), step_params(params), a), algorithm_line(name@, s)]
                        {
                            &&& *seed matches Some(v) ==> s == v
                            &&& final(context).log().last()@ == algorithm_line(name@, s)
                            &&& builds_algorithm(trimmed(name@), step_params(params), a)
                            &&& runs_to(a, s, *old(grid), *final(grid))
                        }
                }
            },
            Step::Effect { name, params } => {
                &&& (r is Ok <==> effect_error(trimmed(name@), step_params(params)) is None)
                &&& r matches Err(e) ==> effect_error(trimmed(name@), step_params(params)) == Some(e.text())
                &&& r is Ok ==> {
                    &&& effect_done(trimmed(name@), step_params(params), *old(grid), *final(grid))
                    &&& final(context).params() == old(context).params()
                    &&& final(context).stored() == old(context).stored()
                    &&& final(context).log() == old(context).log().push(final(context).log().last())
                    &&& final(context).log().last()@ == "Effect: "@ + name@
                }
            },
            Step::Combine { mode, source } => {
                &&& match source {
                    CombineSource::Grid(o) => r is Ok && combined_into(*mode, *old(grid), *o, *final(grid)),
                    CombineSource::Algorithm { name, seed, params } => {
                        &&& (r is Ok <==> known_algorithm(trimmed(name@)))
                        &&& r matches Err(e) ==> e.text() == "Unknown algorithm: "@ + trimmed(name@)
                        &&& r is Ok ==> exists|a: AlgorithmSpec, s: u64, o0: Grid<Tile>, o: Grid<Tile>|
                            #![trigger builds_algorithm(trimmed(name@), step_params(params), a), combined_into(*mode, *old(grid), o, *final(grid)), fresh_walls(o0, old(grid).w() as int, old(grid).h() as int), runs_to(a, s, o0, o)]
                            {
                                &&& builds_algorithm(trimmed(name@), step_params(params), a)
                                &&& *seed matches Some(v) ==> s == v
                                &&& fresh_walls(o0, old(grid).w() as int, old(grid).h() as int)
                                &&& runs_to(a, s, o0, o)
                                &&& combined_into(*mode, *old(grid), o, *final(grid))
                            }
                    },
                    CombineSource::Saved(key) => {
                        &&& (r is Ok <==> old(context).stored().contains_key(key@))
                        &&& r matches Err(e) ==> e.text() == "Unknown saved grid: "@ + key@
                        &&& r is Ok ==> combined_into(*mode, *old(grid), old(context).stored()[key@], *final(grid))
                    },
                }
                &&& r is Ok ==> {
                    &&& final(context).params() == old(context).params()
                    &&& final(context).stored() == old(context).stored()
                    &&& final(context).log() == old(context).log().push(final(context).log().last())
                    &&& final(context).log().last()@ == "Combine: "@ + mode_text(*mode)
                }
            },
            Step::StoreGrid { key } => {
                &&& r is Ok
                &&& *final(grid) == *old(grid)
                &&& final(context).stored().dom() == old(context).stored().dom().insert(key@)
                &&& final(context).stored()[key@].wf()
                &&& final(context).stored()[key@].w() == old(grid).w()
                &&& final(context).stored()[key@].h() == old(grid).h()
                &&& final(context).stored()[key@].cells() == old(grid).cells()
                &&& forall|k: Seq<char>|
                    k != key@ && #[trigger] old(context).stored().contains_key(k) ==> final(context).stored()[k]
                        == old(context).stored()[k]
                &&& final(context).params() == old(context).params()
                &&& final(context).log() == old(context).log()
            },
            Step::SetParameter { key, value } => {
                &&& r is Ok
                &&& *final(grid) == *old(grid)
                &&& final(context).params().dom() == old(context).params().dom().insert(key@)
                &&& final(context).params()[key@]@ == value@
                &&& forall|k: Seq<char>|
                    k != key@ && #[trigger] old(context).params().contains_key(k) ==> final(context).params()[k]
                        == old(context).params()[k]
                &&& final(context).stored() == old(context).stored()
                &&& final(context).log() == old(context).log()
            },
            Step::Log { message } => {
                &&& r is Ok
                &&& *final(grid) == *old(grid)
                &&& final(context).log() == old(context).log().push(final(context).log().last())
                &&& final(context).log().last()@ == message@
                &&& final(context).params() == old(context).params()
                &&& final(context).stored() == old(context).stored()
            },
        },
{
    match step {
        Step::Algorithm { name, seed, params } => {
            let use_seed = match seed {
                Some(v) => *v,
                None => rng.next_u64(),
            };
            let a = match build_algorithm(name.as_str(), params.as_ref()) {
                Ok(a) => a,
                Err(e) => {
                    return Err(e);
                },
            };
            let ghost a0 = a;
            run_on_tiles(a, grid, use_seed);
            proof {
                assert(builds_algorithm(trimmed(name@), step_params(params), a0));
            }
            let mut line = String::new();
            push_text(&mut line, "Algorithm: ");
            push_text(&mut line, name.as_str());
            push_text(&mut line, " (seed: ");
            push_decimal_wide(&mut line, use_seed);
            push_text(&mut line, ")");
            context.log_execution(line.as_str());
            proof {
                assert(context.log().last()@ == algorithm_line(name@, use_seed));
                assert(runs_to(a0, use_seed, *old(grid), *grid));
                assert(builds_algorithm(trimmed(name@), step_params(params), a0));
            }
            Ok(())
        },
        Step::Effect { name, params } => {
            match effect(name.as_str(), grid, params.as_ref()) {
                Ok(()) => {},
                Err(e) => {
                    return Err(e);
                },
            }
            let mut line = String::new();
            push_text(&mut line, "Effect: ");
            push_text(&mut line, name.as_str());
            context.log_execution(line.as_str());
            proof {
                assert(context.log() =~= old(context).log().push(context.log().last()));
            }
            Ok(())
        },
        Step::Combine { mode, source } => {
            match source {
                CombineSource::Grid(o) => {
                    let _ = combine(*mode, grid, o);
                },
                CombineSource::Algorithm { name, seed, params } => {
                    let use_seed = match seed {
                        Some(v) => *v,
                        None => rng.next_u64(),
                    };
                    let a = match build_algorithm(name.as_str(), params.as_ref()) {
                        Ok(a) => a,
                        Err(e) => {
                            return Err(e);
                        },
                    };
                    let ghost a0 = a;
                    let mut temp: Grid<Tile> = Grid::new(grid.width(), grid.height());
                    let ghost o0 = temp;
                    run_on_tiles(a, &mut temp, use_seed);
                    let _ = combine(*mode, grid, &temp);
                    proof {
                        assert(fresh_walls(o0, old(grid).w() as int, old(grid).h() as int));
                        assert(builds_algorithm(trimmed(name@), step_params(params), a0));
                        assert(runs_to(a0, use_seed, o0, temp));
                        assert(combined_into(*mode, *old(grid), temp, *grid));
                    }
                },
                CombineSource::Saved(key) => {
                    match context.get_grid(key.as_str()) {
                        Some(o) => {
                            let _ = combine(*mode, grid, o);
                        },
                        None => {
                            let mut msg = String::new();
                            push_text(&mut msg, "Unknown saved grid: ");
                            push_text(&mut msg, key.as_str());
                            return Err(OpError::new(msg));
                        },
                    }
                },
            }
            let mut line = String::new();
            push_text(&mut line, "Combine: ");
            match mode {
                CombineMode::Replace => push_text(&mut line, "Replace"),
                CombineMode::Union => push_text(&mut line, "Union"),
                CombineMode::Intersect => push_text(&mut line, "Intersect"),
                CombineMode::Mask => push_text(&mut line, "Mask"),
                CombineMode::Difference => push_text(&mut line, "Difference"),
            }
            context.log_execution(line.as_str());
            proof {
                assert(context.log() =~= old(context).log().push(context.log().last()));
            }
            Ok(())
        },
        Step::StoreGrid { key } => {
            let copy = grid.duplicate();
            context.store_grid(key.as_str(), copy);
            Ok(())
        },
        Step::SetParameter { key, value } => {
            context.set_parameter(key.as_str(), value.as_str());
            Ok(())
        },
        Step::Log { message } => {
            context.log_execution(message.as_str());
            proof {
                assert(context.log() =~= old(context).log().push(context.log().last()));
            }
            Ok(())
        },
    }
}

} // verus!
