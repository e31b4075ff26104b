//! Spanning forests over point graphs (Kruskal's selection).

use vstd::prelude::*;

verus! {

/// Whether `u` and `v` are joined by the edges of `es`, built up one edge at
/// a time: adding the edge `(a, b)` joins everything joined to `a` with
/// everything joined to `b`.
pub open spec fn joined(es: Seq<(usize, usize)>, u: int, v: int) -> bool
    decreases es.len(),
{
    if es.len() == 0 {
        u == v
    } else {
        let p = es.drop_last();
        let a = es.last().0 as int;
        let b = es.last().1 as int;
        ||| joined(p, u, v)
        ||| (joined(p, u, a) && joined(p, b, v))
        ||| (joined(p, u, b) && joined(p, a, v))
    }
}

/// The edges of `es` at the indices `idx`, in that order.
pub open spec fn picked(es: Seq<(usize, usize)>, idx: Seq<int>) -> Seq<(usize, usize)> {
    idx.map_values(|i: int| es[i])
}

/// The indices of the edges that the greedy pass over `es` keeps: an edge is
/// kept exactly when the edges kept before it do not already join its ends.
pub open spec fn forest_picks(es: Seq<(usize, usize)>) -> Seq<int>
    decreases es.len(),
{
    if es.len() == 0 {
        Seq::empty()
    } else {
        let prev = forest_picks(es.drop_last());
        if joined(picked(es, prev), es.last().0 as int, es.last().1 as int) {
            prev
        } else {
            prev.push(es.len() - 1)
        }
    }
}

/// Every point is joined to itself.
pub proof fn lemma_joined_refl(es: Seq<(usize, usize)>, u: int)
    ensures
        joined(es, u, u),
    decreases es.len(),
{
    if es.len() > 0 {
        lemma_joined_refl(es.drop_last(), u);
    }
}

/// The kept indices are increasing and lie inside `es`.
pub proof fn lemma_picks_increasing(es: Seq<(usize, usize)>)
    ensures
        forall|j: int| 0 <= j < forest_picks(es).len() ==> 0 <= #[trigger] forest_picks(es)[j] < es.len(),
        forall|i: int, j: int|
            0 <= i < j < forest_picks(es).len() ==> #[trigger] forest_picks(es)[i] < #[trigger] forest_picks(es)[j],
    decreases es.len(),
{
    if es.len() > 0 {
        let d = es.drop_last();
        lemma_picks_increasing(d);
        let prev = forest_picks(d);
        let cur = forest_picks(es);
        if cur != prev {
            assert(cur == prev.push(es.len() - 1));
            assert forall|j: int| 0 <= j < cur.len() implies 0 <= #[trigger] cur[j] < es.len() by {
                if j < prev.len() {
                    assert(cur[j] == prev[j]);
                }
            }
            assert forall|i: int, j: int| 0 <= i < j < cur.len() implies #[trigger] cur[i] < #[trigger] cur[j] by {
                assert(cur[i] == prev[i]);
                if j < prev.len() {
                    assert(cur[j] == prev[j]);
                }
            }
        }
    }
}

/// Picking only indices below `k` reads the same edges from `es` and from
/// its first `k` edges.
proof fn lemma_picked_prefix(es: Seq<(usize, usize)>, idx: Seq<int>, k: int)
    requires
        0 <= k <= es.len(),
        forall|j: int| 0 <= j < idx.len() ==> 0 <= #[trigger] idx[j] < k,
    ensures
        picked(es.take(k), idx) == picked(es, idx),
{
    assert(picked(es.take(k), idx) =~= picked(es, idx));
}

/// The edges kept by the greedy pass join the ends of every edge of `es`:
/// the result spans everything the input connects.
pub proof fn lemma_forest_spans(es: Seq<(usize, usize)>)
    ensures
        forall|k: int|
            0 <= k < es.len() ==> joined(
                picked(es, forest_picks(es)),
                (#[trigger] es[k]).0 as int,
                es[k].1 as int,
            ),
    decreases es.len(),
{
    if es.len() > 0 {
        let d = es.drop_last();
        lemma_forest_spans(d);
        lemma_picks_increasing(d);
        let prev = forest_picks(d);
        lemma_picked_prefix(es, prev, d.len() as int);
        assert(es.take(d.len() as int) =~= d);
        let kept = picked(es, prev);
        let e = es.last();
        if !joined(kept, e.0 as int, e.1 as int) {
            assert(picked(es, prev.push(es.len() - 1)) =~= kept.push(e));
            lemma_joined_refl(kept, e.0 as int);
            lemma_joined_refl(kept, e.1 as int);
            assert(kept.push(e).drop_last() =~= kept);
        }
        assert forall|k: int| 0 <= k < es.len() implies joined(
            picked(es, forest_picks(es)),
            (#[trigger] es[k]).0 as int,
            es[k].1 as int,
        ) by {
            if k < d.len() {
                assert(d[k] == es[k]);
                if !joined(kept, e.0 as int, e.1 as int) {
                    assert(kept.push(e).drop_last() =~= kept);
                }
            }
        }
    }
}

/// The picks among the first `k` edges are the first picks of all of them,
/// and the picks after those are edges at `k` or later.
pub proof fn lemma_picks_prefix(es: Seq<(usize, usize)>, k: int)
    requires
        0 <= k <= es.len(),
    ensures
        forest_picks(es.take(k)).len() <= forest_picks(es).len(),
        forest_picks(es).take(forest_picks(es.take(k)).len() as int) == forest_picks(es.take(k)),
        forall|j: int|
            forest_picks(es.take(k)).len() <= j < forest_picks(es).len() ==> #[trigger] forest_picks(es)[j] >= k,
    decreases es.len() - k,
{
    if k == es.len() {
        assert(es.take(k) =~= es);
        assert(forest_picks(es).take(forest_picks(es).len() as int) =~= forest_picks(es));
    } else {
        let d = es.drop_last();
        lemma_picks_prefix(d, k);
        assert(d.take(k) =~= es.take(k));
        let p = forest_picks(es.take(k));
        let fd = forest_picks(d);
        let fe = forest_picks(es);
        if fe != fd {
            assert(fe == fd.push(es.len() - 1));
            assert(fe.take(p.len() as int) =~= fd.take(p.len() as int));
            assert forall|j: int| p.len() <= j < fe.len() implies #[trigger] fe[j] >= k by {
                if j < fd.len() {
                    assert(fe[j] == fd[j]);
                }
            }
        }
    }
}

/// Every edge that the greedy pass leaves out has its ends joined by the
/// edges kept before it: with edges given in ascending order of length, no
/// kept edge could be swapped for a left-out one to shorten the forest.
pub proof fn lemma_forest_skips_joined(es: Seq<(usize, usize)>)
    ensures
        forall|k: int|
            0 <= k < es.len() && !forest_picks(es).contains(k) ==> joined(
                picked(es, forest_picks(es.take(k))),
                (#[trigger] es[k]).0 as int,
                es[k].1 as int,
            ),
{
    assert forall|k: int| 0 <= k < es.len() && !forest_picks(es).contains(k) implies joined(
        picked(es, forest_picks(es.take(k))),
        (#[trigger] es[k]).0 as int,
        es[k].1 as int,
    ) by {
        let t = es.take(k + 1);
        let pk = forest_picks(es.take(k));
        assert(t.drop_last() =~= es.take(k));
        assert(t.last() == es[k]);
        lemma_picks_increasing(es.take(k));
        lemma_picked_prefix(t, pk, k);
        assert(t.take(k) =~= es.take(k));
        lemma_picked_prefix(es, pk, k);
        if !joined(picked(t, pk), es[k].0 as int, es[k].1 as int) {
            assert(forest_picks(t) == pk.push(k));
            lemma_picks_prefix(es, k + 1);
            let fe = forest_picks(es);
            assert(fe.take(pk.len() as int + 1) == pk.push(k));
            assert(fe.take(pk.len() as int + 1)[pk.len() as int] == k);
            assert(fe[pk.len() as int] == k);
            assert(fe.contains(k));
        }
    }
}

/// Minimum spanning tree selection (Kruskal).
pub struct Mst;

impl Mst {
    /// Given edges in ascending order of length, the indices of the edges that
    /// form a minimum spanning forest: each edge is kept exactly when the
    /// edges kept before it do not already join its two ends.
    pub fn forest(edges: &Vec<(usize, usize)>, num_points: usize) -> (r: Vec<usize>)
        requires
            forall|k: int| 0 <= k < edges.len() ==> (#[trigger] edges@[k]).0 < num_points && edges@[k].1 < num_points,
        ensures
            r@.len() == forest_picks(edges@).len(),
            forall|j: int| 0 <= j < r@.len() ==> r@[j] as int == #[trigger] forest_picks(edges@)[j],
    {
        let n = num_points;
        let mut comp: Vec<usize> = Vec::with_capacity(n);
        let mut i: usize = 0;
        while i < n
            invariant
                i <= n,
                comp@.len() == i,
                forall|x: int| 0 <= x < i ==> comp@[x] == x,
            decreases n - i,
        {
            comp.push(i);
            i = i + 1;
        }
        let ghost es = edges@;
        let mut sel: Vec<usize> = Vec::new();
        let ghost mut kept: Seq<(usize, usize)> = Seq::empty();
        proof {
            assert(es.take(0) =~= Seq::<(usize, usize)>::empty());
            assert forall|u: int, v: int| 0 <= u < n && 0 <= v < n implies (comp@[u] == comp@[v]) == joined(
                kept,
                u,
                v,
            ) by {}
        }
        let m = edges.len();
        let mut k: usize = 0;
        while k < m
            invariant
                es == edges@,
                m == es.len(),
                k <= m,
                forall|q: int| 0 <= q < es.len() ==> (#[trigger] es[q]).0 < n && es[q].1 < n,
                comp@.len() == n,
                forall|x: int| 0 <= x < n ==> #[trigger] comp@[x] < n,
                forall|u: int, v: int|
                    0 <= u < n && 0 <= v < n ==> ((#[trigger] comp@[u] == #[trigger] comp@[v]) == joined(
                        kept,
                        u,
                        v,
                    )),
                sel@.len() == forest_picks(es.take(k as int)).len(),
                forall|j: int|
                    0 <= j < sel@.len() ==> sel@[j] as int == #[trigger] forest_picks(es.take(k as int))[j],
                kept == picked(es, forest_picks(es.take(k as int))),
            decreases m - k,
        {
            let a = edges[k].0;
            let b = edges[k].1;
            let ghost prev = forest_picks(es.take(k as int));
            proof {
                let t = es.take(k + 1);
                assert(t.drop_last() =~= es.take(k as int));
                assert(t.last() == es[k as int]);
                lemma_picks_increasing(es.take(k as int));
                lemma_picked_prefix(es, prev, k as int);
                lemma_picked_prefix(t, prev, k as int);
                assert(t.take(k as int) =~= es.take(k as int));
                assert(picked(t, prev) == picked(es, prev));
            }
            let la = comp[a];
            let lb = comp[b];
            if la != lb {
                let mut x: usize = 0;
                let ghost old_comp = comp@;
                while x < n
                    invariant
                        0 <= a < n,
                        0 <= b < n,
                        la == old_comp[a as int],
                        lb == old_comp[b as int],
                        la != lb,
                        old_comp.len() == n,
                        comp@.len() == n,
                        x <= n,
                        forall|y: int| 0 <= y < n ==> #[trigger] old_comp[y] < n,
                        forall|y: int|
                            0 <= y < x ==> #[trigger] comp@[y] == (if old_comp[y] == lb {
                                la
                            } else {
                                old_comp[y]
                            }),
                        forall|y: int| x <= y < n ==> #[trigger] comp@[y] == old_comp[y],
                    decreases n - x,
                {
                    if comp[x] == lb {
                        comp.set(x, la);
                    }
                    x = x + 1;
                }
                let ghost e = es[k as int];
                proof {
                    let nk = kept.push(e);
                    assert(nk.drop_last() =~= kept);
                    assert forall|u: int, v: int| 0 <= u < n && 0 <= v < n implies ((#[trigger] comp@[u]
                        == #[trigger] comp@[v]) == joined(nk, u, v)) by {
                        assert((old_comp[u] == old_comp[a as int]) == joined(kept, u, a as int));
                        assert((old_comp[u] == old_comp[b as int]) == joined(kept, u, b as int));
                        assert((old_comp[b as int] == old_comp[v]) == joined(kept, b as int, v));
                        assert((old_comp[a as int] == old_comp[v]) == joined(kept, a as int, v));
                        assert((old_comp[u] == old_comp[v]) == joined(kept, u, v));
                    }
                    assert(!joined(kept, a as int, b as int)) by {
                        assert((old_comp[a as int] == old_comp[b as int]) == joined(kept, a as int, b as int));
                    }
                    assert(forest_picks(es.take(k + 1)) == prev.push(k as int));
                    assert(picked(es, prev.push(k as int)) =~= kept.push(e));
                    kept = nk;
                }
                sel.push(k);
            } else {
                proof {
                    assert((comp@[a as int] == comp@[b as int]) == joined(kept, a as int, b as int));
                    assert(forest_picks(es.take(k + 1)) == prev);
                }
            }
            k = k + 1;
        }
        proof {
            assert(es.take(m as int) =~= es);
        }
        sel
    }
}

} // verus!
