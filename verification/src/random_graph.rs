//! Random generation of simple undirected edge sets: rejection sampling of
//! canonical node pairs up to the requested count, with the complete graph
//! as the answer whenever that count asks for every pair.

use vstd::prelude::*;

use crate::graph::{contains_pair, lemma_push_keeps_pair};

verus! {

/// All unordered pairs on nodes `0..n`, smaller endpoint first.
pub open spec fn complete_edge_set(n: usize) -> Set<(usize, usize)> {
    Set::new(|e: (usize, usize)| e.0 < e.1 && e.1 < n)
}

/// Number of pairs `(a, b)` with `a < b < n` whose smaller endpoint is
/// below `u`: row `a` contributes the `n - 1 - a` pairs it opens.
pub open spec fn pairs_upto(n: int, u: int) -> int
    decreases u,
{
    if u <= 0 {
        0
    } else {
        pairs_upto(n, u - 1) + (n - u)
    }
}

proof fn lemma_pairs_upto(n: int, u: int)
    requires
        0 <= u <= n,
    ensures
        2 * pairs_upto(n, u) == u * (2 * n - u - 1),
    decreases u,
{
    if u == 0 {
        assert(u * (2 * n - u - 1) == 0) by (nonlinear_arith)
            requires
                u == 0,
        ;
    } else {
        lemma_pairs_upto(n, u - 1);
        assert(pairs_upto(n, u) == pairs_upto(n, u - 1) + (n - u));
        assert(2 * pairs_upto(n, u) == u * (2 * n - u - 1)) by (nonlinear_arith)
            requires
                2 * pairs_upto(n, u - 1) == (u - 1) * (2 * n - (u - 1) - 1),
                pairs_upto(n, u) == pairs_upto(n, u - 1) + (n - u),
        ;
    }
}

proof fn lemma_pairs_total(n: int)
    requires
        0 <= n,
    ensures
        pairs_upto(n, n) == n * (n - 1) / 2,
{
    lemma_pairs_upto(n, n);
    assert(2 * pairs_upto(n, n) == n * (n - 1)) by (nonlinear_arith)
        requires
            2 * pairs_upto(n, n) == n * (2 * n - n - 1),
    ;
    assert(pairs_upto(n, n) == n * (n - 1) / 2) by (nonlinear_arith)
        requires
            2 * pairs_upto(n, n) == n * (n - 1),
    ;
}

/// Relies on `rand::random`: a value drawn from the thread-local generator
/// under the standard distribution.  Nothing is assumed about which value
/// comes back.
pub assume_specification<T>[ rand::random::<T> ]() -> (r: T)
    where
        rand::distr::StandardUniform: rand::distr::Distribution<T>,
;

/// Append `e` to a duplicate-free edge list it does not yet occur in.
fn push_new_edge(v: &mut Vec<(usize, usize)>, e: (usize, usize))
    requires
        old(v)@.no_duplicates(),
        !old(v)@.contains(e),
    ensures
        final(v)@ == old(v)@.push(e),
        final(v)@.no_duplicates(),
{
    let ghost v0 = v@;
    v.push(e);
    proof {
        assert forall|i1: int, i2: int|
            0 <= i1 < v@.len() && 0 <= i2 < v@.len() && i1 != i2 implies v@[i1] != v@[i2] by {
            if i1 < v0.len() && i2 < v0.len() {
            } else if i2 == v0.len() as int {
                if v@[i1] == v@[i2] {
                    assert(v0[i1] == e);
                    assert(v0.contains(e));
                }
            } else {
                if v@[i1] == v@[i2] {
                    assert(v0[i2] == e);
                    assert(v0.contains(e));
                }
            }
        }
    }
}

/// Every pair `(u, v)` with `u < v < nodes`, in lexicographic order.
#[verifier::loop_isolation(false)]
fn complete_graph_edges(nodes: usize) -> (r: Vec<(usize, usize)>)
    requires
        (nodes as int) * (nodes as int - 1) <= usize::MAX as int,
    ensures
        forall|i: int| 0 <= i < r@.len() ==> (#[trigger] r@[i]).0 < r@[i].1 && r@[i].1 < nodes,
        r@.no_duplicates(),
        r@.to_set() == complete_edge_set(nodes),
        r@.len() as int == (nodes as int) * (nodes as int - 1) / 2,
{
    let mut r: Vec<(usize, usize)> = Vec::new();
    let mut u: usize = 0;
    while u < nodes
        invariant
            u <= nodes,
            r@.len() as int == pairs_upto(nodes as int, u as int),
            forall|i: int|
                0 <= i < r@.len() ==> (#[trigger] r@[i]).0 < r@[i].1 && r@[i].1 < nodes
                    && r@[i].0 < u,
            forall|a: usize, b: usize| a < u && a < b && b < nodes ==> r@.contains((a, b)),
            r@.no_duplicates(),
        decreases nodes - u,
    {
        let mut v: usize = u + 1;
        while v < nodes
            invariant
                u < v <= nodes,
                r@.len() as int == pairs_upto(nodes as int, u as int) + (v - u - 1),
                forall|i: int|
                    0 <= i < r@.len() ==> (#[trigger] r@[i]).0 < r@[i].1 && r@[i].1 < nodes && (
                    r@[i].0 < u || (r@[i].0 == u && r@[i].1 < v)),
                forall|a: usize, b: usize| a < u && a < b && b < nodes ==> r@.contains((a, b)),
                forall|b: usize| u < b < v ==> r@.contains((u, b)),
                r@.no_duplicates(),
            decreases nodes - v,
        {
            let ghost r0 = r@;
            proof {
                assert(!r0.contains((u, v))) by {
                    if r0.contains((u, v)) {
                        let ii = choose|ii: int| 0 <= ii < r0.len() && r0[ii] == (u, v);
                        assert(r0[ii].0 == u && r0[ii].1 == v);
                    }
                }
            }
            push_new_edge(&mut r, (u, v));
            proof {
                assert(r@.contains((u, v))) by {
                    assert(r@[r@.len() - 1] == (u, v));
                }
                assert forall|a: usize, b: usize| a < u && a < b && b < nodes implies r@.contains(
                    (a, b),
                ) by {
                    lemma_push_keeps_pair(r0, (u, v), (a, b));
                }
                assert forall|b: usize| u < b < v + 1 implies r@.contains((u, b)) by {
                    if b < v {
                        lemma_push_keeps_pair(r0, (u, v), (u, b));
                    }
                }
            }
            v += 1;
        }
        proof {
            assert(pairs_upto(nodes as int, u as int + 1) == pairs_upto(nodes as int, u as int) + (
            nodes - u - 1));
            assert forall|a: usize, b: usize| a < u + 1 && a < b && b < nodes implies r@.contains(
                (a, b),
            ) by {
                if a == u {
                    assert(r@.contains((u, b)));
                }
            }
        }
        u += 1;
    }
    proof {
        lemma_pairs_total(nodes as int);
        assert forall|e: (usize, usize)| #[trigger]
            complete_edge_set(nodes).contains(e) implies r@.to_set().contains(e) by {
            assert(r@.contains((e.0, e.1)));
        }
        assert(r@.to_set() =~= complete_edge_set(nodes));
    }
    r
}

/// Produce a simple undirected edge set of the requested size on nodes
/// `0..nodes`: the empty set for a graph with no nodes, the full complete
/// graph whenever `edges` asks for at least every pair, and otherwise
/// `edges` distinct canonical pairs found by rejection sampling of random
/// node pairs (self-loops and repeats rejected), topped up from the
/// remaining pairs in the overwhelmingly unlikely case that the random
/// draws stall.
#[verifier::loop_isolation(false)]
pub fn generate_random_graph_edges(nodes: usize, edges: usize) -> (r: Vec<(usize, usize)>)
    requires
        (nodes as int) * (nodes as int - 1) <= usize::MAX as int,
    ensures
        forall|i: int| 0 <= i < r@.len() ==> (#[trigger] r@[i]).0 < r@[i].1 && r@[i].1 < nodes,
        r@.no_duplicates(),
        edges as int >= (nodes as int) * (nodes as int - 1) / 2 ==> r@.to_set()
            == complete_edge_set(nodes) && r@.len() as int == (nodes as int) * (nodes as int - 1)
            / 2,
        0 < nodes && (edges as int) < (nodes as int) * (nodes as int - 1) / 2 ==> r@.len()
            == edges,
{
    if nodes == 0 {
        let r: Vec<(usize, usize)> = Vec::new();
        proof {
            assert(r@.to_set() =~= complete_edge_set(nodes));
        }
        return r;
    }
    let max = nodes * (nodes - 1) / 2;
    if edges >= max {
        return complete_graph_edges(nodes);
    }
    let mut ret: Vec<(usize, usize)> = Vec::new();
    let mut fuel: u64 = u64::MAX;
    while ret.len() < edges && fuel > 0
        invariant
            ret@.len() <= edges,
            forall|i: int|
                0 <= i < ret@.len() ==> (#[trigger] ret@[i]).0 < ret@[i].1 && ret@[i].1 < nodes,
            ret@.no_duplicates(),
        decreases fuel,
    {
        fuel = fuel - 1;
        let du = (rand::random::<u64>() % (nodes as u64)) as usize;
        let dv = (rand::random::<u64>() % (nodes as u64)) as usize;
        if du != dv {
            let e = if du < dv {
                (du, dv)
            } else {
                (dv, du)
            };
            if !contains_pair(&ret, e) {
                push_new_edge(&mut ret, e);
            }
        }
    }
    if ret.len() < edges {
        let all = complete_graph_edges(nodes);
        let mut i: usize = 0;
        while i < all.len() && ret.len() < edges
            invariant
                i <= all@.len(),
                ret@.len() <= edges,
                forall|j: int|
                    0 <= j < ret@.len() ==> (#[trigger] ret@[j]).0 < ret@[j].1 && ret@[j].1
                        < nodes,
                ret@.no_duplicates(),
                ret@.len() == edges || (forall|j: int|
                    0 <= j < i ==> ret@.contains(#[trigger] all@[j])),
            decreases all@.len() - i,
        {
            let e = all[i];
            if !contains_pair(&ret, e) {
                let ghost ret0 = ret@;
                push_new_edge(&mut ret, e);
                proof {
                    assert(ret@[ret@.len() - 1] == e);
                    assert(ret@.contains(e));
                    assert forall|j: int| 0 <= j < i implies ret@.contains(
                        #[trigger] all@[j],
                    ) by {
                        lemma_push_keeps_pair(ret0, e, all@[j]);
                    }
                }
            }
            i += 1;
        }
        proof {
            if ret@.len() < edges {
                assert(i == all@.len());
                assert forall|x: (usize, usize)| #[trigger]
                    complete_edge_set(nodes).contains(x) implies ret@.to_set().contains(x) by {
                    assert(all@.to_set().contains(x));
                    let jj = choose|jj: int| 0 <= jj < all@.len() && all@[jj] == x;
                    assert(ret@.contains(all@[jj]));
                }
                assert forall|x: (usize, usize)| #[trigger]
                    ret@.to_set().contains(x) implies complete_edge_set(nodes).contains(x) by {
                    let jj = choose|jj: int| 0 <= jj < ret@.len() && ret@[jj] == x;
                }
                assert(ret@.to_set() =~= complete_edge_set(nodes));
                ret@.unique_seq_to_set();
                all@.unique_seq_to_set();
                assert(ret@.len() == all@.len());
                assert(false);
            }
        }
    }
    ret
}

} // verus!
