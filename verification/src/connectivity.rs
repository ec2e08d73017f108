//! The mathematical model: undirected edge sets over node indices `0..n`,
//! walks along their edges, reachability from node 0, and the brute-force
//! notion of k-edge-connectivity that the executable code decides.

use vstd::prelude::*;

verus! {

/// An undirected edge joining `a` and `b` is present in `es`, whichever
/// orientation it is stored under.
pub open spec fn es_step(es: Set<(usize, usize)>, a: usize, b: usize) -> bool {
    es.contains((a, b)) || es.contains((b, a))
}

/// `p` is a walk through nodes `0..n` whose consecutive nodes are joined by
/// edges of `es`.
pub open spec fn es_path(n: nat, es: Set<(usize, usize)>, p: Seq<usize>) -> bool {
    &&& p.len() > 0
    &&& forall|i: int| 0 <= i < p.len() ==> (#[trigger] p[i]) < n
    &&& forall|i: int| 0 <= i < p.len() - 1 ==> es_step(es, #[trigger] p[i], p[i + 1])
}

/// Some walk through `0..n` along edges of `es` leads from `u` to `v`.
pub open spec fn es_reaches(n: nat, es: Set<(usize, usize)>, u: usize, v: usize) -> bool {
    exists|p: Seq<usize>| es_path(n, es, p) && p.first() == u && p.last() == v
}

/// Every node of `0..n` is reachable from node 0; trivially true of the
/// empty graph.
pub open spec fn es_connected(n: nat, es: Set<(usize, usize)>) -> bool {
    n == 0 || forall|v: usize| v < n ==> #[trigger] es_reaches(n, es, 0, v)
}

/// The graph on `n` nodes with canonical edge set `es` is k-edge-connected:
/// it has strictly more than `k` edges, and keeping any `es.len() - k` of
/// them still connects all `n` nodes.
pub open spec fn spec_k_edge_connected(n: nat, es: Set<(usize, usize)>, k: nat) -> bool {
    &&& es.finite()
    &&& es.len() > k
    &&& forall|s: Set<(usize, usize)>| #[trigger] s.subset_of(es) && s.len() == es.len() - k
        ==> es_connected(n, s)
}

/// A node stands alone: `u` reaches itself by the one-node walk.
pub proof fn lemma_reaches_self(n: nat, es: Set<(usize, usize)>, u: usize)
    requires
        u < n,
    ensures
        es_reaches(n, es, u, u),
{
    let p = seq![u];
    assert(es_path(n, es, p));
    assert(p.first() == u && p.last() == u);
}

/// Reachability extends across one more edge.
pub proof fn lemma_reaches_step(n: nat, es: Set<(usize, usize)>, u: usize, v: usize, w: usize)
    requires
        es_reaches(n, es, u, v),
        es_step(es, v, w),
        w < n,
    ensures
        es_reaches(n, es, u, w),
{
    let p = choose|p: Seq<usize>| es_path(n, es, p) && p.first() == u && p.last() == v;
    let q = p.push(w);
    assert(q.last() == w);
    assert forall|i: int| 0 <= i < q.len() - 1 implies es_step(es, #[trigger] q[i], q[i + 1]) by {
        if i < p.len() - 1 {
            assert(es_step(es, p[i], p[i + 1]));
        } else {
            assert(q[i] == v && q[i + 1] == w);
        }
    }
    assert(es_path(n, es, q));
}

/// A set of nodes that contains the start of a walk and is closed under the
/// edges of `es` contains the walk's end.  `vis[i]` marks membership of
/// node `i`.
pub proof fn lemma_closed_set_covers_walk(
    n: nat,
    es: Set<(usize, usize)>,
    vis: Seq<bool>,
    p: Seq<usize>,
)
    requires
        vis.len() == n,
        es_path(n, es, p),
        vis[p.first() as int],
        forall|a: usize, b: usize|
            a < n && b < n && vis[a as int] && #[trigger] es_step(es, a, b) ==> vis[b as int],
    ensures
        vis[p.last() as int],
    decreases p.len(),
{
    if p.len() == 1 {
        assert(p.last() == p.first());
    } else {
        let q = p.drop_last();
        assert(q.len() == p.len() - 1);
        assert forall|i: int| 0 <= i < q.len() - 1 implies es_step(es, #[trigger] q[i], q[i + 1]) by {
            assert(es_step(es, p[i], p[i + 1]));
        }
        assert(es_path(n, es, q));
        assert(q.first() == p.first());
        lemma_closed_set_covers_walk(n, es, vis, q);
        let a = p[p.len() - 2];
        let b = p.last();
        assert(es_step(es, a, b));
        assert(q.last() == a);
    }
}

/// A graph never counts as k-edge-connected when it has at most `k` edges.
pub proof fn lemma_degenerate_threshold(n: nat, es: Set<(usize, usize)>, k: nat)
    requires
        es.len() <= k,
    ensures
        !spec_k_edge_connected(n, es, k),
{
}

/// The k-edge-connectivity verdict is a function of the graph's node count,
/// edge set and threshold alone: any two results that the decision
/// procedure's contract admits on the same inputs are equal.
pub proof fn lemma_decision_deterministic(
    r1: bool,
    r2: bool,
    n: nat,
    es: Set<(usize, usize)>,
    k: nat,
)
    requires
        r1 == spec_k_edge_connected(n, es, k),
        r2 == spec_k_edge_connected(n, es, k),
    ensures
        r1 == r2,
{
}

} // verus!
