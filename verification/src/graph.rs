//! Adjacency-list graphs: construction from an edge collection, depth-first
//! connectivity testing, the exhaustive k-edge-connectivity decision, and
//! enumeration of the k-edge-connected induced subgraphs.

use itertools::Itertools;
use vstd::prelude::*;

use crate::connectivity::{
    es_connected, es_path, es_reaches, es_step, lemma_closed_set_covers_walk,
    lemma_reaches_self, lemma_reaches_step, spec_k_edge_connected,
};

verus! {

/// `v` occurs in `u`'s adjacency list.
pub open spec fn adj_has(adj: Seq<Seq<usize>>, u: usize, v: usize) -> bool {
    u < adj.len() && adj[u as int].contains(v)
}

/// Every adjacency entry names a node of the graph.
pub open spec fn adj_in_bounds(adj: Seq<Seq<usize>>) -> bool {
    forall|u: int, j: int|
        0 <= u < adj.len() && 0 <= j < adj[u].len() ==> (#[trigger] adj[u][j]) < adj.len()
}

/// Every edge is recorded on both sides.
pub open spec fn adj_sym(adj: Seq<Seq<usize>>) -> bool {
    forall|u: usize, v: usize| #[trigger] adj_has(adj, u, v) ==> adj_has(adj, v, u)
}

/// The distinct undirected edges of an adjacency structure, each taken with
/// the smaller endpoint first.
pub open spec fn spec_edges(adj: Seq<Seq<usize>>) -> Set<(usize, usize)> {
    Set::new(
        |e: (usize, usize)|
            e.0 <= e.1 && (adj_has(adj, e.0, e.1) || adj_has(adj, e.1, e.0)),
    )
}

/// The undirected pair `(u, v)` occurs in the edge list, in either
/// orientation.
pub open spec fn edge_listed(edges: Seq<(usize, usize)>, u: usize, v: usize) -> bool {
    edges.contains((u, v)) || edges.contains((v, u))
}

/// Adjacency lists of an undirected graph over nodes `0..self@.len()`.
#[derive(Clone, Debug)]
pub struct Graph {
    adjacent: Vec<Vec<usize>>,
}

impl View for Graph {
    type V = Seq<Seq<usize>>;

    closed spec fn view(&self) -> Seq<Seq<usize>> {
        Seq::new(self.adjacent@.len(), |i: int| self.adjacent@[i]@)
    }
}

impl Graph {
    /// The structural invariant every constructed graph has: adjacency
    /// entries stay in bounds and the representation is symmetric.
    pub open spec fn wf(&self) -> bool {
        adj_in_bounds(self@) && adj_sym(self@)
    }

    /// Number of nodes of the graph.
    pub fn node_count(&self) -> (n: usize)
        ensures
            n == self@.len(),
    {
        self.adjacent.len()
    }

    /// Build the graph on `nodes` nodes holding every listed edge, recorded
    /// in both directions.
    #[verifier::loop_isolation(false)]
    pub fn new(nodes: usize, edges: &Vec<(usize, usize)>) -> (g: Graph)
        requires
            forall|i: int|
                0 <= i < edges@.len()
                    ==> (#[trigger] edges@[i]).0 < nodes && edges@[i].1 < nodes,
        ensures
            g@.len() == nodes,
            g.wf(),
            forall|u: usize, v: usize|
                #[trigger] adj_has(g@, u, v) <==> v < nodes && edge_listed(edges@, u, v),
            forall|i: int|
                0 <= i < edges@.len()
                    ==> adj_has(g@, (#[trigger] edges@[i]).0, edges@[i].1)
                        && adj_has(g@, edges@[i].1, edges@[i].0),
    {
        let mut adjacent: Vec<Vec<usize>> = Vec::new();
        let mut u: usize = 0;
        while u < nodes
            invariant
                u <= nodes,
                adjacent@.len() == u,
                forall|w: int, v: usize|
                    0 <= w < u
                        ==> ((#[trigger] adjacent@[w]@.contains(v)) <==> edge_listed(
                            edges@,
                            w as usize,
                            v,
                        )),
            decreases nodes - u,
        {
            let mut lst: Vec<usize> = Vec::new();
            let mut j: usize = 0;
            while j < edges.len()
                invariant
                    j <= edges@.len(),
                    forall|v: usize|
                        (#[trigger] lst@.contains(v)) <==> edge_listed(edges@.take(j as int), u, v),
                decreases edges@.len() - j,
            {
                let (a, b) = edges[j];
                let ghost lst0 = lst@;
                let ghost t0 = edges@.take(j as int);
                let ghost t1 = edges@.take(j as int + 1);
                proof {
                    assert(t1 =~= t0.push(edges@[j as int]));
                    assert(t1[j as int] == (a, b));
                }
                if a == u {
                    lst.push(b);
                } else if b == u {
                    lst.push(a);
                }
                proof {
                    assert forall|v: usize| (#[trigger] lst@.contains(v)) implies edge_listed(
                        t1,
                        u,
                        v,
                    ) by {
                        let ii = choose|ii: int| 0 <= ii < lst@.len() && lst@[ii] == v;
                        if ii < lst0.len() {
                            assert(lst0[ii] == v);
                            assert(lst0.contains(v));
                            assert(edge_listed(t0, u, v));
                            if t0.contains((u, v)) {
                                let jj = choose|jj: int| 0 <= jj < t0.len() && t0[jj] == (u, v);
                                assert(t1[jj] == (u, v));
                                assert(t1.contains((u, v)));
                            } else {
                                let jj = choose|jj: int| 0 <= jj < t0.len() && t0[jj] == (v, u);
                                assert(t1[jj] == (v, u));
                                assert(t1.contains((v, u)));
                            }
                        } else {
                            if a == u {
                                assert(v == b);
                                assert(t1.contains((u, v)));
                            } else {
                                assert(b == u && v == a);
                                assert(t1.contains((v, u)));
                            }
                        }
                    }
                    assert forall|v: usize| edge_listed(t1, u, v) implies lst@.contains(v) by {
                        assert(forall|jj: int|
                            0 <= jj < lst0.len() ==> lst@[jj] == lst0[jj] && lst@.len()
                                >= lst0.len());
                        if t1.contains((u, v)) {
                            let ii = choose|ii: int| 0 <= ii < t1.len() && t1[ii] == (u, v);
                            if ii < j as int {
                                assert(t0[ii] == (u, v));
                                assert(edge_listed(t0, u, v));
                                assert(lst0.contains(v));
                                let jj = choose|jj: int| 0 <= jj < lst0.len() && lst0[jj] == v;
                                assert(lst@[jj] == v);
                            } else {
                                assert((a, b) == (u, v));
                                assert(lst@.last() == v);
                            }
                        } else {
                            let ii = choose|ii: int| 0 <= ii < t1.len() && t1[ii] == (v, u);
                            if ii < j as int {
                                assert(t0[ii] == (v, u));
                                assert(edge_listed(t0, u, v));
                                assert(lst0.contains(v));
                                let jj = choose|jj: int| 0 <= jj < lst0.len() && lst0[jj] == v;
                                assert(lst@[jj] == v);
                            } else {
                                assert((a, b) == (v, u));
                                if a == u {
                                    assert(lst@.last() == b);
                                } else {
                                    assert(lst@.last() == v);
                                }
                            }
                        }
                    }
                }
                j += 1;
            }
            proof {
                assert(edges@.take(j as int) == edges@);
            }
            adjacent.push(lst);
            u += 1;
        }
        let g = Graph { adjacent };
        proof {
            assert forall|u2: usize, v: usize|
                #[trigger] adj_has(g@, u2, v) <==> v < nodes && edge_listed(edges@, u2, v) by {
                if adj_has(g@, u2, v) {
                    assert(g@[u2 as int] == adjacent@[u2 as int]@);
                    assert(edge_listed(edges@, u2, v));
                    if edges@.contains((u2, v)) {
                        let ii = choose|ii: int| 0 <= ii < edges@.len() && edges@[ii] == (u2, v);
                        assert(edges@[ii].1 == v);
                    } else {
                        let ii = choose|ii: int| 0 <= ii < edges@.len() && edges@[ii] == (v, u2);
                        assert(edges@[ii].0 == v);
                    }
                }
                if v < nodes && edge_listed(edges@, u2, v) {
                    if edges@.contains((u2, v)) {
                        let ii = choose|ii: int| 0 <= ii < edges@.len() && edges@[ii] == (u2, v);
                        assert(edges@[ii].0 == u2);
                    } else {
                        let ii = choose|ii: int| 0 <= ii < edges@.len() && edges@[ii] == (v, u2);
                        assert(edges@[ii].1 == u2);
                    }
                    assert(g@[u2 as int] == adjacent@[u2 as int]@);
                }
            }
            assert forall|i: int| 0 <= i < edges@.len() implies adj_has(
                g@,
                (#[trigger] edges@[i]).0,
                edges@[i].1,
            ) && adj_has(g@, edges@[i].1, edges@[i].0) by {
                assert(edges@.contains(edges@[i]));
                assert(edge_listed(edges@, edges@[i].0, edges@[i].1));
                assert(edge_listed(edges@, edges@[i].1, edges@[i].0));
            }
            assert(adj_in_bounds(g@)) by {
                assert forall|u2: int, j2: int|
                    0 <= u2 < g@.len() && 0 <= j2 < g@[u2].len() implies (#[trigger] g@[u2][j2])
                    < g@.len() by {
                    let v = g@[u2][j2];
                    assert(g@[u2].contains(v));
                    assert(adj_has(g@, u2 as usize, v));
                }
            }
        }
        g
    }
}

/// Number of `true` entries of `s`.
pub open spec fn count_true(s: Seq<bool>) -> nat
    decreases s.len(),
{
    if s.len() == 0 {
        0
    } else {
        count_true(s.drop_last()) + (if s.last() {
            1nat
        } else {
            0nat
        })
    }
}

proof fn lemma_count_true_le(s: Seq<bool>)
    ensures
        count_true(s) <= s.len(),
    decreases s.len(),
{
    if s.len() > 0 {
        lemma_count_true_le(s.drop_last());
    }
}

proof fn lemma_count_true_update(s: Seq<bool>, i: int)
    requires
        0 <= i < s.len(),
        !s[i],
    ensures
        count_true(s.update(i, true)) == count_true(s) + 1,
    decreases s.len(),
{
    let t = s.update(i, true);
    if i == s.len() - 1 {
        assert(t.drop_last() =~= s.drop_last());
        assert(t.last());
    } else {
        assert(t.drop_last() =~= s.drop_last().update(i, true));
        assert(t.last() == s.last());
        lemma_count_true_update(s.drop_last(), i);
    }
}

impl Graph {
    /// Depth-first traversal from `start`, driven by an explicit stack: marks
    /// every node reachable from `start` in `visited`, never unmarks a node,
    /// and marks nothing unreachable.  The caller must mark `start` itself
    /// before the call.
    #[verifier::loop_isolation(false)]
    pub fn dfs(&self, start: usize, visited: &mut Vec<bool>)
        requires
            self.wf(),
            start < self@.len(),
            old(visited)@.len() == self@.len(),
            old(visited)@[start as int],
        ensures
            final(visited)@.len() == old(visited)@.len(),
            forall|i: int| 0 <= i < final(visited)@.len() && old(visited)@[i] ==> final(visited)@[i],
            forall|i: int|
                0 <= i < final(visited)@.len() && final(visited)@[i] && !old(visited)@[i]
                    ==> es_reaches(self@.len() as nat, spec_edges(self@), start, i as usize),
            forall|v: usize| #[trigger] adj_has(self@, start, v) ==> final(visited)@[v as int],
            forall|u: usize, v: usize|
                u < self@.len() as usize && final(visited)@[u as int] && !old(visited)@[u as int]
                    && #[trigger] adj_has(self@, u, v) ==> final(visited)@[v as int],
    {
        let ghost n = self@.len() as nat;
        let ghost es = spec_edges(self@);
        let mut stack: Vec<usize> = Vec::new();
        proof {
            lemma_reaches_self(n, es, start);
            lemma_count_true_le(visited@);
        }
        stack.push(start);
        proof {
            assert(stack@[0] == start);
            assert(stack@.contains(start));
        }
        while stack.len() != 0
            invariant
                visited@.len() == self@.len(),
                forall|i: int| 0 <= i < visited@.len() && old(visited)@[i] ==> visited@[i],
                forall|i: int|
                    0 <= i < visited@.len() && visited@[i] && !old(visited)@[i] ==> es_reaches(
                        n,
                        es,
                        start,
                        i as usize,
                    ),
                forall|i: int|
                    0 <= i < stack@.len() ==> (#[trigger] stack@[i]) < self@.len()
                        && visited@[stack@[i] as int] && es_reaches(n, es, start, stack@[i]),
                stack@.contains(start) || (forall|v: usize|
                    #[trigger] adj_has(self@, start, v) ==> visited@[v as int]),
                forall|u: usize, v: usize|
                    u < self@.len() as usize && visited@[u as int] && !old(visited)@[u as int]
                        && !stack@.contains(u) && #[trigger] adj_has(self@, u, v)
                        ==> visited@[v as int],
                count_true(visited@) <= n,
            decreases 2 * (n - count_true(visited@)) + stack@.len(),
        {
            let ghost m0 = 2 * (n - count_true(visited@)) + stack@.len();
            let ghost stack_before = stack@;
            let u = stack.pop().unwrap();
            proof {
                assert(stack_before[stack_before.len() - 1] == u);
                assert(u < self@.len() && visited@[u as int] && es_reaches(n, es, start, u));
                assert(stack@ == stack_before.drop_last());
                assert forall|w: usize| !stack@.contains(w) && w != u implies !stack_before.contains(
                    w,
                ) by {
                    if stack_before.contains(w) {
                        let ii = choose|ii: int|
                            0 <= ii < stack_before.len() && stack_before[ii] == w;
                        if ii < stack_before.len() - 1 {
                            assert(stack@[ii] == w);
                        }
                    }
                }
            }
            let row: &Vec<usize> = &self.adjacent[u];
            proof {
                assert(row@ == self@[u as int]);
            }
            let mut j: usize = 0;
            while j < row.len()
                invariant
                    j <= row@.len(),
                    visited@.len() == self@.len(),
                    visited@[u as int],
                    forall|i: int| 0 <= i < visited@.len() && old(visited)@[i] ==> visited@[i],
                    forall|i: int|
                        0 <= i < visited@.len() && visited@[i] && !old(visited)@[i] ==> es_reaches(
                            n,
                            es,
                            start,
                            i as usize,
                        ),
                    forall|i: int|
                        0 <= i < stack@.len() ==> (#[trigger] stack@[i]) < self@.len()
                            && visited@[stack@[i] as int] && es_reaches(n, es, start, stack@[i]),
                    u == start || stack@.contains(start) || (forall|v: usize|
                        #[trigger] adj_has(self@, start, v) ==> visited@[v as int]),
                    forall|w: usize, v: usize|
                        w < self@.len() as usize && visited@[w as int] && !old(visited)@[w as int]
                            && !stack@.contains(w) && w != u && #[trigger] adj_has(self@, w, v)
                            ==> visited@[v as int],
                    forall|jj: int| 0 <= jj < j ==> visited@[row@[jj] as int],
                    count_true(visited@) <= n,
                    2 * (n - count_true(visited@)) + stack@.len() <= m0 - 1,
                decreases row@.len() - j,
            {
                let v = row[j];
                proof {
                    assert(self@[u as int].contains(v)) by {
                        assert(self@[u as int][j as int] == v);
                    }
                    assert(adj_has(self@, u, v));
                    assert(v < self@.len());
                    assert(es_step(es, u, v)) by {
                        let e = if u <= v {
                            (u, v)
                        } else {
                            (v, u)
                        };
                        assert(spec_edges(self@).contains(e));
                    }
                }
                if !visited[v] {
                    let ghost vis0 = visited@;
                    let ghost stack0 = stack@;
                    visited[v] = true;
                    proof {
                        lemma_count_true_update(vis0, v as int);
                        lemma_count_true_le(visited@);
                        lemma_reaches_step(n, es, start, u, v);
                    }
                    stack.push(v);
                    proof {
                        assert(stack@[stack@.len() - 1] == v);
                        assert(stack@.contains(v));
                        assert forall|w: usize| stack0.contains(w) implies stack@.contains(w) by {
                            let ii = choose|ii: int| 0 <= ii < stack0.len() && stack0[ii] == w;
                            assert(stack@[ii] == w);
                        }
                    }
                }
                j += 1;
            }
            proof {
                assert forall|v: usize| #[trigger] adj_has(self@, u, v) implies visited@[v as int] by {
                    let jj = choose|jj: int|
                        0 <= jj < self@[u as int].len() && self@[u as int][jj] == v;
                    assert(row@[jj] == v);
                }
            }
        }
    }

    /// Whether every node of the graph is reachable from node 0 by a
    /// depth-first traversal; a graph with no nodes counts as connected.
    #[verifier::loop_isolation(false)]
    pub fn is_connected(&self) -> (r: bool)
        requires
            self.wf(),
        ensures
            r == es_connected(self@.len() as nat, spec_edges(self@)),
    {
        let ghost n = self@.len() as nat;
        let ghost es = spec_edges(self@);
        let nodes = self.adjacent.len();
        proof {
            assert(nodes == self@.len());
        }
        if nodes == 0 {
            return true;
        }
        let mut visited: Vec<bool> = Vec::new();
        let mut i: usize = 0;
        while i < nodes
            invariant
                i <= nodes,
                visited@.len() == i,
                forall|jj: int| 0 <= jj < i ==> !visited@[jj],
            decreases nodes - i,
        {
            visited.push(false);
            i += 1;
        }
        visited[0] = true;
        let ghost vis0 = visited@;
        self.dfs(0, &mut visited);
        let ghost vis = visited@;
        let mut all = true;
        let ghost mut witness: int = 0;
        let mut w: usize = 0;
        while w < nodes
            invariant
                w <= nodes,
                visited@ == vis,
                all ==> forall|jj: int| 0 <= jj < w ==> vis[jj],
                !all ==> 0 <= witness < nodes && !vis[witness],
            decreases nodes - w,
        {
            if !visited[w] {
                all = false;
                proof {
                    witness = w as int;
                }
            }
            w += 1;
        }
        proof {
            if all {
                assert forall|v: usize| v < n implies #[trigger] es_reaches(n, es, 0, v) by {
                    if vis[v as int] {
                        if v == 0 {
                            lemma_reaches_self(n, es, 0);
                        }
                    }
                }
                assert(es_connected(n, es));
            } else {
                let wv = witness;
                assert(!vis[wv]);
                if es_connected(n, es) {
                    assert(es_reaches(n, es, 0, wv as usize));
                    let p = choose|p: Seq<usize>|
                        es_path(n, es, p) && p.first() == 0usize && p.last() == wv as usize;
                    assert forall|a: usize, b: usize|
                        a < n && b < n && vis[a as int] && #[trigger] es_step(es, a, b)
                            implies vis[b as int] by {
                        assert(es.contains((a, b)) || es.contains((b, a)));
                        assert(adj_has(self@, a, b) || adj_has(self@, b, a));
                        assert(adj_has(self@, a, b));
                    }
                    lemma_closed_set_covers_walk(n, es, vis, p);
                    assert(false);
                }
            }
        }
        all
    }
}

/// The undirected pair on `a` and `b`, smaller endpoint first.
pub open spec fn canon(a: usize, b: usize) -> (usize, usize) {
    if a <= b {
        (a, b)
    } else {
        (b, a)
    }
}

/// `c` lists `m` distinct elements drawn from `items`.
pub open spec fn is_combination(c: Seq<(usize, usize)>, items: Seq<(usize, usize)>, m: nat) -> bool {
    &&& c.len() == m
    &&& c.no_duplicates()
    &&& forall|i: int| 0 <= i < c.len() ==> items.contains(#[trigger] c[i])
}

/// Relies on `itertools::Itertools::combinations`: over an iterator of
/// distinct items it yields every `m`-element combination, each one a vector
/// of distinct input elements, and every size-`m` subset of the input occurs
/// among the results.
#[verifier::external_body]
fn combinations_of(items: &Vec<(usize, usize)>, m: usize) -> (r: Vec<Vec<(usize, usize)>>)
    requires
        items@.no_duplicates(),
        m <= items@.len(),
    ensures
        forall|c: int| 0 <= c < r@.len() ==> is_combination((#[trigger] r@[c])@, items@, m as nat),
        forall|s: Set<(usize, usize)>|
            #[trigger] s.subset_of(items@.to_set()) && s.len() == m as nat ==> exists|c: int|
                0 <= c < r@.len() && (#[trigger] r@[c])@.to_set() == s,
{
    items.iter().copied().combinations(m).collect()
}

/// Whether `e` occurs in `v`.
pub(crate) fn contains_pair(v: &Vec<(usize, usize)>, e: (usize, usize)) -> (r: bool)
    ensures
        r == v@.contains(e),
{
    let mut i: usize = 0;
    while i < v.len()
        invariant
            i <= v@.len(),
            forall|j: int| 0 <= j < i ==> v@[j] != e,
        decreases v@.len() - i,
    {
        let (a, b) = v[i];
        if a == e.0 && b == e.1 {
            proof {
                assert(v@[i as int] == e);
            }
            return true;
        }
        i += 1;
    }
    proof {
        if v@.contains(e) {
            let jj = choose|jj: int| 0 <= jj < v@.len() && v@[jj] == e;
            assert(v@[jj] == e);
        }
    }
    false
}

/// Every canonical edge of an in-bounds adjacency structure has both
/// endpoints among its nodes.
proof fn lemma_spec_edges_bounds(adj: Seq<Seq<usize>>)
    requires
        adj_in_bounds(adj),
    ensures
        forall|e: (usize, usize)| #[trigger]
            spec_edges(adj).contains(e) ==> e.0 < adj.len() && e.1 < adj.len(),
{
    assert forall|e: (usize, usize)| #[trigger] spec_edges(adj).contains(e) implies e.0 < adj.len()
        && e.1 < adj.len() by {
        if adj_has(adj, e.0, e.1) {
            let jj = choose|jj: int| 0 <= jj < adj[e.0 as int].len() && adj[e.0 as int][jj] == e.1;
            assert(adj[e.0 as int][jj] < adj.len());
        } else {
            let jj = choose|jj: int| 0 <= jj < adj[e.1 as int].len() && adj[e.1 as int][jj] == e.0;
            assert(adj[e.1 as int][jj] < adj.len());
        }
    }
}

/// A graph whose adjacency membership mirrors a canonical edge list has
/// that list's elements as its canonical edge set.
proof fn lemma_graph_edge_set(g: &Graph, el: Seq<(usize, usize)>)
    requires
        forall|u: usize, v: usize|
            #[trigger] adj_has(g@, u, v) <==> v < g@.len() && edge_listed(el, u, v),
        forall|i: int|
            0 <= i < el.len() ==> (#[trigger] el[i]).0 <= el[i].1 && el[i].0 < g@.len()
                && el[i].1 < g@.len(),
    ensures
        spec_edges(g@) == el.to_set(),
{
    assert forall|e: (usize, usize)| #[trigger] spec_edges(g@).contains(e) implies el.to_set()
        .contains(e) by {
        assert(el.contains((e.0, e.1)) || el.contains((e.1, e.0)));
        if el.contains((e.1, e.0)) && e.1 != e.0 {
            let ii = choose|ii: int| 0 <= ii < el.len() && el[ii] == (e.1, e.0);
            assert(el[ii].0 <= el[ii].1);
            assert(e.0 <= e.1);
            assert(false);
        }
        assert(el.contains(e));
    }
    assert forall|e: (usize, usize)| #[trigger] el.to_set().contains(e) implies spec_edges(
        g@,
    ).contains(e) by {
        let ii = choose|ii: int| 0 <= ii < el.len() && el[ii] == e;
        assert(e.0 <= e.1 && e.0 < g@.len() && e.1 < g@.len());
        assert(edge_listed(el, e.0, e.1));
        assert(adj_has(g@, e.0, e.1));
    }
    assert(spec_edges(g@) =~= el.to_set());
}

impl Graph {
    /// Exhaustively decide k-edge-connectivity: collect the distinct
    /// canonical edges, refuse outright when there are no more than `k` of
    /// them, and otherwise test every way of keeping all but `k` edges for
    /// connectivity.
    #[verifier::loop_isolation(false)]
    pub fn is_k_edge_connected(&self, k: usize) -> (r: bool)
        requires
            self.wf(),
        ensures
            r == spec_k_edge_connected(self@.len() as nat, spec_edges(self@), k as nat),
    {
        let ghost n = self@.len() as nat;
        let ghost es = spec_edges(self@);
        let nodes = self.adjacent.len();
        proof {
            assert(nodes == self@.len());
        }
        let mut edges: Vec<(usize, usize)> = Vec::new();
        let mut u: usize = 0;
        while u < nodes
            invariant
                u <= nodes,
                edges@.no_duplicates(),
                forall|i: int| 0 <= i < edges@.len() ==> es.contains(#[trigger] edges@[i]),
                forall|uu: usize, jj: int|
                    uu < u && 0 <= jj < self@[uu as int].len() ==> edges@.contains(
                        canon(uu, #[trigger] self@[uu as int][jj]),
                    ),
            decreases nodes - u,
        {
            let row: &Vec<usize> = &self.adjacent[u];
            proof {
                assert(row@ == self@[u as int]);
            }
            let mut j: usize = 0;
            while j < row.len()
                invariant
                    j <= row@.len(),
                    edges@.no_duplicates(),
                    forall|i: int| 0 <= i < edges@.len() ==> es.contains(#[trigger] edges@[i]),
                    forall|uu: usize, jj: int|
                        uu < u && 0 <= jj < self@[uu as int].len() ==> edges@.contains(
                            canon(uu, #[trigger] self@[uu as int][jj]),
                        ),
                    forall|jj: int| 0 <= jj < j ==> edges@.contains(canon(u, #[trigger] row@[jj])),
                decreases row@.len() - j,
            {
                let v = row[j];
                let e = if u <= v {
                    (u, v)
                } else {
                    (v, u)
                };
                proof {
                    assert(adj_has(self@, u, v)) by {
                        assert(self@[u as int][j as int] == v);
                    }
                    assert(adj_has(self@, v, u));
                    assert(es.contains(e));
                    assert(e == canon(u, v));
                }
                if !contains_pair(&edges, e) {
                    let ghost e0 = edges@;
                    edges.push(e);
                    proof {
                        assert forall|i1: int, i2: int|
                            0 <= i1 < edges@.len() && 0 <= i2 < edges@.len() && i1
                                != i2 implies edges@[i1] != edges@[i2] by {
                            if i1 < e0.len() && i2 < e0.len() {
                            } else if i2 == e0.len() as int {
                                if edges@[i1] == edges@[i2] {
                                    assert(e0[i1] == e);
                                    assert(e0.contains(e));
                                }
                            } else {
                                if edges@[i1] == edges@[i2] {
                                    assert(e0[i2] == e);
                                    assert(e0.contains(e));
                                }
                            }
                        }
                        assert(edges@.no_duplicates());
                        assert forall|x: (usize, usize)| e0.contains(x) implies edges@.contains(
                            x,
                        ) by {
                            let ii = choose|ii: int| 0 <= ii < e0.len() && e0[ii] == x;
                            assert(edges@[ii] == x);
                        }
                        assert(edges@[e0.len() as int] == e);
                        assert(edges@.contains(e));
                    }
                }
                j += 1;
            }
            u += 1;
        }
        proof {
            assert forall|e: (usize, usize)| #[trigger] es.contains(e) implies edges@.to_set()
                .contains(e) by {
                if adj_has(self@, e.0, e.1) {
                    let jj = choose|jj: int|
                        0 <= jj < self@[e.0 as int].len() && self@[e.0 as int][jj] == e.1;
                    assert(edges@.contains(canon(e.0, e.1)));
                    assert(canon(e.0, e.1) == e);
                } else {
                    let jj = choose|jj: int|
                        0 <= jj < self@[e.1 as int].len() && self@[e.1 as int][jj] == e.0;
                    assert(edges@.contains(canon(e.1, e.0)));
                    assert(canon(e.1, e.0) == e);
                }
            }
            assert forall|e: (usize, usize)| #[trigger] edges@.to_set().contains(e) implies es
                .contains(e) by {
                let ii = choose|ii: int| 0 <= ii < edges@.len() && edges@[ii] == e;
            }
            assert(edges@.to_set() =~= es);
            edges@.unique_seq_to_set();
            vstd::seq_lib::seq_to_set_is_finite(edges@);
            assert(es.finite());
            assert(es.len() == edges@.len());
        }
        if edges.len() <= k {
            return false;
        }
        let m = edges.len() - k;
        let combos = combinations_of(&edges, m);
        let mut idx: usize = 0;
        while idx < combos.len()
            invariant
                idx <= combos@.len(),
                forall|c: int|
                    0 <= c < idx ==> es_connected(n, (#[trigger] combos@[c])@.to_set()),
            decreases combos@.len() - idx,
        {
            let sub: &Vec<(usize, usize)> = &combos[idx];
            proof {
                lemma_spec_edges_bounds(self@);
                assert(is_combination(sub@, edges@, m as nat));
                assert forall|i: int| 0 <= i < sub@.len() implies (#[trigger] sub@[i]).0 <= sub@[i].1
                    && sub@[i].0 < nodes && sub@[i].1 < nodes by {
                    assert(edges@.contains(sub@[i]));
                    let ii = choose|ii: int| 0 <= ii < edges@.len() && edges@[ii] == sub@[i];
                    assert(es.contains(sub@[i]));
                }
            }
            let g = Graph::new(nodes, sub);
            let ok = g.is_connected();
            proof {
                lemma_graph_edge_set(&g, sub@);
            }
            if !ok {
                proof {
                    let s = sub@.to_set();
                    assert forall|x: (usize, usize)| #[trigger] s.contains(x) implies es.contains(
                        x,
                    ) by {
                        let ii = choose|ii: int| 0 <= ii < sub@.len() && sub@[ii] == x;
                        assert(edges@.contains(x));
                        let kk = choose|kk: int| 0 <= kk < edges@.len() && edges@[kk] == x;
                    }
                    assert(s.subset_of(es));
                    sub@.unique_seq_to_set();
                    assert(s.len() == es.len() - k as nat);
                    assert(!es_connected(n, s));
                    assert(!spec_k_edge_connected(n, es, k as nat));
                }
                return false;
            }
            idx += 1;
        }
        proof {
            assert forall|s: Set<(usize, usize)>| #[trigger]
                s.subset_of(es) && s.len() == es.len() - k as nat implies es_connected(n, s) by {
                assert(s.subset_of(edges@.to_set()));
                assert(s.len() == m as nat);
                let c = choose|c: int| 0 <= c < combos@.len() && (#[trigger] combos@[c])@.to_set() == s;
                assert(es_connected(n, (combos@[c])@.to_set()));
            }
            assert(spec_k_edge_connected(n, es, k as nat));
        }
        true
    }
}

/// `s` lists some nodes of `0..n` in strictly ascending order.
pub open spec fn is_ascending_subset(s: Seq<usize>, n: usize) -> bool {
    &&& forall|i: int| 0 <= i < s.len() ==> (#[trigger] s[i]) < n
    &&& forall|i: int, j: int| #![trigger s[i], s[j]] 0 <= i < j < s.len() ==> s[i] < s[j]
}

/// The edges of `es` whose endpoints both survive into the ascending node
/// subset `sub`, each remapped to its endpoints' positions in `sub`.
pub open spec fn induced_edge_set(es: Set<(usize, usize)>, sub: Seq<usize>) -> Set<(usize, usize)> {
    Set::new(
        |f: (usize, usize)|
            exists|e: (usize, usize)|
                #[trigger] es.contains(e) && sub.contains(e.0) && sub.contains(e.1) && f == ((
                    sub.index_of(e.0) as usize,
                    sub.index_of(e.1) as usize,
                )),
    )
}

/// Relies on `itertools::Itertools::powerset`: over the range `0..n` it
/// yields every subset, with elements in the range's own ascending order,
/// and every ascending subset of the range occurs among the results.
#[verifier::external_body]
fn subsets_of_range(n: usize) -> (r: Vec<Vec<usize>>)
    ensures
        forall|c: int| 0 <= c < r@.len() ==> is_ascending_subset((#[trigger] r@[c])@, n),
        forall|s: Seq<usize>|
            #[trigger] is_ascending_subset(s, n) ==> exists|c: int|
                0 <= c < r@.len() && (#[trigger] r@[c])@ == s,
{
    (0..n).powerset().collect()
}

/// Position of the first occurrence of `x` in `lst`, when `x` occurs at all.
fn position_in(lst: &Vec<usize>, x: usize) -> (o: Option<usize>)
    ensures
        match o {
            Some(p) => p < lst@.len() && lst@[p as int] == x,
            None => !lst@.contains(x),
        },
{
    let mut i: usize = 0;
    while i < lst.len()
        invariant
            i <= lst@.len(),
            forall|j: int| 0 <= j < i ==> lst@[j] != x,
        decreases lst@.len() - i,
    {
        if lst[i] == x {
            return Some(i);
        }
        i += 1;
    }
    proof {
        if lst@.contains(x) {
            let jj = choose|jj: int| 0 <= jj < lst@.len() && lst@[jj] == x;
            assert(lst@[jj] == x);
        }
    }
    None
}

/// In a strictly ascending sequence an element's position is unique, so it
/// is the one `index_of` names.
proof fn lemma_ascending_position(s: Seq<usize>, n: usize, p: int, x: usize)
    requires
        is_ascending_subset(s, n),
        0 <= p < s.len(),
        s[p] == x,
    ensures
        s.contains(x),
        s.index_of(x) == p,
{
    assert(s.contains(x)) by {
        assert(s[p] == x);
    }
    let q = s.index_of(x);
    assert(0 <= q < s.len() && s[q] == x);
    if q < p {
        assert(s[q] < s[p]);
        assert(false);
    }
    if p < q {
        assert(s[p] < s[q]);
        assert(false);
    }
}

/// A copy of a node list.
fn copy_nodes(v: &Vec<usize>) -> (r: Vec<usize>)
    ensures
        r@ == v@,
{
    let mut r: Vec<usize> = Vec::new();
    let mut i: usize = 0;
    while i < v.len()
        invariant
            i <= v@.len(),
            r@ == v@.take(i as int),
        decreases v@.len() - i,
    {
        r.push(v[i]);
        proof {
            assert(r@ =~= v@.take(i as int + 1));
        }
        i += 1;
    }
    proof {
        assert(v@.take(v@.len() as int) =~= v@);
    }
    r
}

pub(crate) proof fn lemma_push_keeps_pair<A>(s: Seq<A>, x: A, y: A)
    requires
        s.contains(y),
    ensures
        s.push(x).contains(y),
{
    let ii = choose|ii: int| 0 <= ii < s.len() && s[ii] == y;
    assert(s.push(x)[ii] == y);
}

/// Every ascending node subset of `0..nodes` whose induced subgraph — the
/// listed edges surviving with both endpoints in the subset, remapped to
/// compacted indices — is k-edge-connected.
#[verifier::loop_isolation(false)]
pub fn enumerate_k_edge_connected_induced_subgraphs(
    nodes: usize,
    edges: &Vec<(usize, usize)>,
    k: usize,
) -> (r: Vec<Vec<usize>>)
    requires
        forall|i: int|
            0 <= i < edges@.len() ==> (#[trigger] edges@[i]).0 <= edges@[i].1 && edges@[i].1
                < nodes,
    ensures
        forall|c: int|
            0 <= c < r@.len() ==> is_ascending_subset((#[trigger] r@[c])@, nodes)
                && spec_k_edge_connected(
                r@[c]@.len() as nat,
                induced_edge_set(edges@.to_set(), r@[c]@),
                k as nat,
            ),
        forall|s: Seq<usize>|
            #[trigger] is_ascending_subset(s, nodes) && spec_k_edge_connected(
                s.len() as nat,
                induced_edge_set(edges@.to_set(), s),
                k as nat,
            ) ==> exists|c: int| 0 <= c < r@.len() && (#[trigger] r@[c])@ == s,
{
    let ghost es0 = edges@.to_set();
    let subs = subsets_of_range(nodes);
    let mut r: Vec<Vec<usize>> = Vec::new();
    let mut si: usize = 0;
    while si < subs.len()
        invariant
            si <= subs@.len(),
            forall|c: int|
                0 <= c < r@.len() ==> is_ascending_subset((#[trigger] r@[c])@, nodes)
                    && spec_k_edge_connected(
                    r@[c]@.len() as nat,
                    induced_edge_set(es0, r@[c]@),
                    k as nat,
                ),
            forall|t: int|
                0 <= t < si && spec_k_edge_connected(
                    (#[trigger] subs@[t])@.len() as nat,
                    induced_edge_set(es0, subs@[t]@),
                    k as nat,
                ) ==> exists|c: int| 0 <= c < r@.len() && (#[trigger] r@[c])@ == subs@[t]@,
        decreases subs@.len() - si,
    {
        let sub: &Vec<usize> = &subs[si];
        let ghost sv = sub@;
        let mut rem: Vec<(usize, usize)> = Vec::new();
        let mut t: usize = 0;
        while t < edges.len()
            invariant
                t <= edges@.len(),
                forall|i: int|
                    0 <= i < rem@.len() ==> induced_edge_set(es0, sv).contains(#[trigger] rem@[i])
                        && rem@[i].0 <= rem@[i].1 && rem@[i].1 < sv.len(),
                forall|tt: int|
                    0 <= tt < t && sv.contains((#[trigger] edges@[tt]).0) && sv.contains(
                        edges@[tt].1,
                    ) ==> rem@.contains(
                        (sv.index_of(edges@[tt].0) as usize, sv.index_of(edges@[tt].1) as usize),
                    ),
            decreases edges@.len() - t,
        {
            let (a, b) = edges[t];
            let pa = position_in(sub, a);
            let pb = position_in(sub, b);
            let ghost rem0 = rem@;
            if let Some(x) = pa {
                if let Some(y) = pb {
                    proof {
                        lemma_ascending_position(sv, nodes, x as int, a);
                        lemma_ascending_position(sv, nodes, y as int, b);
                        assert(x <= y) by {
                            if y < x {
                                assert(sv[y as int] < sv[x as int]);
                            }
                        }
                        assert(es0.contains(edges@[t as int])) by {
                            assert(edges@.contains(edges@[t as int]));
                        }
                        assert(induced_edge_set(es0, sv).contains((x, y))) by {
                            let e = edges@[t as int];
                            assert(es0.contains(e) && sv.contains(e.0) && sv.contains(e.1) && (
                            x,
                            y,
                            ) == ((sv.index_of(e.0) as usize, sv.index_of(e.1) as usize)));
                        }
                    }
                    rem.push((x, y));
                    proof {
                        assert(rem@[rem0.len() as int] == (x, y));
                        assert(rem@.contains((x, y)));
                        assert forall|z: (usize, usize)| rem0.contains(z) implies rem@.contains(
                            z,
                        ) by {
                            lemma_push_keeps_pair(rem0, (x, y), z);
                        }
                    }
                }
            }
            t += 1;
        }
        proof {
            assert forall|f: (usize, usize)| #[trigger]
                induced_edge_set(es0, sv).contains(f) implies rem@.to_set().contains(f) by {
                let e = choose|e: (usize, usize)|
                    #[trigger] es0.contains(e) && sv.contains(e.0) && sv.contains(e.1) && f == ((
                        sv.index_of(e.0) as usize,
                        sv.index_of(e.1) as usize,
                    ));
                let tt = choose|tt: int| 0 <= tt < edges@.len() && edges@[tt] == e;
                assert(rem@.contains(f));
            }
            assert forall|f: (usize, usize)| #[trigger] rem@.to_set().contains(f) implies
                induced_edge_set(es0, sv).contains(f) by {
                let ii = choose|ii: int| 0 <= ii < rem@.len() && rem@[ii] == f;
            }
            assert(rem@.to_set() =~= induced_edge_set(es0, sv));
        }
        let g = Graph::new(sub.len(), &rem);
        let verdict = g.is_k_edge_connected(k);
        proof {
            lemma_graph_edge_set(&g, rem@);
        }
        let ghost r_before = r@;
        if verdict {
            let kept = copy_nodes(sub);
            r.push(kept);
            proof {
                assert(r@[r@.len() - 1]@ == sv);
            }
        }
        proof {
            assert forall|t: int|
                0 <= t < si + 1 && spec_k_edge_connected(
                    (#[trigger] subs@[t])@.len() as nat,
                    induced_edge_set(es0, subs@[t]@),
                    k as nat,
                ) implies exists|c: int| 0 <= c < r@.len() && (#[trigger] r@[c])@ == subs@[t]@ by {
                if t == si {
                    assert(subs@[t]@ == sv);
                    assert(verdict);
                    assert(r@[r@.len() - 1]@ == sv);
                } else {
                    let c = choose|c: int| 0 <= c < r_before.len() && (#[trigger] r_before[c])@ == subs@[t]@;
                    assert(r@[c]@ == subs@[t]@);
                }
            }
        }
        si += 1;
    }
    proof {
        assert forall|s: Seq<usize>|
            #[trigger] is_ascending_subset(s, nodes) && spec_k_edge_connected(
                s.len() as nat,
                induced_edge_set(edges@.to_set(), s),
                k as nat,
            ) implies exists|c: int| 0 <= c < r@.len() && (#[trigger] r@[c])@ == s by {
            let t = choose|t: int| 0 <= t < subs@.len() && (#[trigger] subs@[t])@ == s;
            assert(spec_k_edge_connected(
                subs@[t]@.len() as nat,
                induced_edge_set(es0, subs@[t]@),
                k as nat,
            ));
        }
    }
    r
}

} // verus!
