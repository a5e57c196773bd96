use crate::graph::{is_edge, Adjacency, Graph, NodeId};
use vstd::prelude::*;
use vstd::set_lib::{lemma_int_range, lemma_len_subset, set_int_range};

verus! {

/// `p` is a non-empty sequence of nodes in which each node has an edge to the next.
pub open spec fn is_walk(g: Adjacency, p: Seq<NodeId>) -> bool {
    &&& p.len() > 0
    &&& forall|i: int| 0 <= i < p.len() - 1 ==> #[trigger] is_edge(g, p[i], p[i + 1])
}

/// `p` is a walk that starts at `s` and ends at `t`.
pub open spec fn is_walk_between(g: Adjacency, p: Seq<NodeId>, s: NodeId, t: NodeId) -> bool {
    is_walk(g, p) && p[0] == s && p.last() == t
}

/// Some walk from `s` to `t` visits at most `n` nodes (takes fewer than `n` edges).
pub open spec fn reachable_within(g: Adjacency, s: NodeId, t: NodeId, n: nat) -> bool {
    exists|p: Seq<NodeId>| #[trigger] is_walk_between(g, p, s, t) && p.len() <= n
}

/// Some walk leads from `s` to `t`.
pub open spec fn reachable(g: Adjacency, s: NodeId, t: NodeId) -> bool {
    exists|p: Seq<NodeId>| #[trigger] is_walk_between(g, p, s, t)
}

/// `v` is a key node whose shortest walks from `s` have exactly `k + 1` nodes.
pub open spec fn on_frontier(g: Adjacency, s: NodeId, v: NodeId, k: nat) -> bool {
    g.contains_key(v) && reachable_within(g, s, v, k + 1) && !reachable_within(g, s, v, k)
}

proof fn lemma_extend(g: Adjacency, p: Seq<NodeId>, s: NodeId, v: NodeId)
    requires
        is_walk_between(g, p, s, p.last()),
        is_edge(g, p.last(), v),
    ensures
        is_walk_between(g, p.push(v), s, v),
{
    let q = p.push(v);
    assert forall|i: int| 0 <= i < q.len() - 1 implies #[trigger] is_edge(g, q[i], q[i + 1]) by {
        if i < p.len() - 1 {
            assert(q[i] == p[i] && q[i + 1] == p[i + 1]);
        }
    }
}

proof fn lemma_step(g: Adjacency, s: NodeId, u: NodeId, v: NodeId, n: nat)
    requires
        reachable_within(g, s, u, n),
        is_edge(g, u, v),
    ensures
        reachable_within(g, s, v, n + 1),
{
    let p = choose|p: Seq<NodeId>| #[trigger] is_walk_between(g, p, s, u) && p.len() <= n;
    lemma_extend(g, p, s, v);
    assert(is_walk_between(g, p.push(v), s, v));
}

/// A node first reached by a walk of `k + 2` nodes comes right after a frontier node of level `k`.
proof fn lemma_predecessor(g: Adjacency, s: NodeId, v: NodeId, k: nat) -> (u: NodeId)
    requires
        reachable_within(g, s, v, k + 2),
        !reachable_within(g, s, v, k + 1),
    ensures
        on_frontier(g, s, u, k),
        is_edge(g, u, v),
{
    let p = choose|p: Seq<NodeId>| #[trigger] is_walk_between(g, p, s, v) && p.len() <= k + 2;
    assert(p.len() == k + 2);
    let u = p[k as int];
    let q = p.subrange(0, k as int + 1);
    assert(is_edge(g, p[k as int], p[k as int + 1]));
    assert forall|i: int| 0 <= i < q.len() - 1 implies #[trigger] is_edge(g, q[i], q[i + 1]) by {
        assert(is_edge(g, p[i], p[i + 1]));
    }
    assert(is_walk_between(g, q, s, u));
    if reachable_within(g, s, u, k) {
        lemma_step(g, s, u, v, k);
    }
    u
}

/// With no frontier node at level `k`, every node of a walk from `s` is reached within `k + 1` nodes.
proof fn lemma_closed(g: Adjacency, s: NodeId, p: Seq<NodeId>, k: nat, i: int)
    requires
        is_walk_between(g, p, s, p.last()),
        0 <= i < p.len(),
        forall|v: NodeId| !#[trigger] on_frontier(g, s, v, k),
    ensures
        reachable_within(g, s, p[i], k + 1),
    decreases i,
{
    if i == 0 {
        assert(is_walk_between(g, seq![s], s, s));
    } else {
        lemma_closed(g, s, p, k, i - 1);
        let a = i - 1;
        assert(is_edge(g, p[a], p[a + 1]));
        if reachable_within(g, s, p[i - 1], k) {
            lemma_step(g, s, p[i - 1], p[i], k);
        } else {
            assert(!on_frontier(g, s, p[i - 1], k));
        }
    }
}

/// The nodes of `p` followed by `w`.
fn extended(p: &Vec<NodeId>, w: NodeId) -> (q: Vec<NodeId>)
    ensures
        q@ == p@.push(w),
{
    let mut q: Vec<NodeId> = Vec::new();
    let mut i: usize = 0;
    while i < p.len()
        invariant
            i <= p@.len(),
            q@ == p@.subrange(0, i as int),
        decreases p@.len() - i,
    {
        q.push(p[i]);
        i += 1;
    }
    assert(q@ == p@);
    q.push(w);
    q
}

/// A shortest walk from `start` to `end`, found by breadth-first search,
/// or `None` when no walk leads there. Which of several shortest walks is
/// returned is left open.
#[verifier::loop_isolation(false)]
pub fn bfs_shortest_path(graph: &Graph, start: NodeId, end: NodeId) -> (r: Option<Vec<NodeId>>)
    requires
        graph.wf(),
    ensures
        start == end ==> (r matches Some(p) && p@ == seq![start]),
        r is None <==> !reachable(graph@, start, end),
        r matches Some(p) ==> is_walk_between(graph@, p@, start, end),
        r matches Some(p) ==> forall|q: Seq<NodeId>|
            #[trigger] is_walk_between(graph@, q, start, end) ==> p@.len() <= q.len(),
{
    let ghost g = graph@;
    proof {
        graph.lemma_model();
    }
    if start == end {
        let p = vec![start];
        assert(is_walk_between(g, p@, start, end));
        return Some(p);
    }
    let first = match graph.slot(start) {
        Some(i) => i,
        None => {
            assert forall|p: Seq<NodeId>| !#[trigger] is_walk_between(g, p, start, end) by {
                if is_walk_between(g, p, start, end) {
                    assert(p.len() > 1);
                    let a: int = 0;
                    assert(is_edge(g, p[a], p[a + 1]));
                }
            }
            return None;
        },
    };
    let n = graph.node_count();
    let ghost ko = graph.key_order();
    let mut visited: Vec<bool> = Vec::new();
    while visited.len() < n
        invariant
            visited@.len() <= n,
            forall|i: int| 0 <= i < visited@.len() ==> !visited@[i],
        decreases n - visited@.len(),
    {
        visited.push(false);
    }
    visited.set(first, true);
    let ghost mut vis: Set<int> = set![first as int];
    let mut layer: Vec<Vec<NodeId>> = vec![vec![start]];
    let ghost mut k: nat = 0;
    proof {
        assert(is_walk_between(g, layer@[0]@, start, start));
        assert forall|i: int| 0 <= i < n && reachable_within(g, start, ko[i], 1) implies visited@[i] by {
            let p = choose|p: Seq<NodeId>| #[trigger] is_walk_between(g, p, start, ko[i]) && p.len() <= 1;
            assert(ko[i] == ko[first as int]);
        }
        assert forall|v: NodeId| #[trigger] on_frontier(g, start, v, 0) implies exists|j: int|
            0 <= j < layer@.len() && layer@[j]@.last() == v by {
            let p = choose|p: Seq<NodeId>| #[trigger] is_walk_between(g, p, start, v) && p.len() <= 1;
            assert(layer@[0]@.last() == v);
        }
        assert forall|i: int| 0 <= i < n && visited@[i] implies reachable_within(g, start, ko[i], 1) by {
            assert(is_walk_between(g, seq![start], start, ko[i]));
        }
        assert(!reachable_within(g, start, end, 1));
        lemma_int_range(0, n as int);
        lemma_len_subset(vis, set_int_range(0, n as int));
    }
    loop
        invariant
            visited@.len() == n,
            forall|j: int| #![trigger layer@[j]] 0 <= j < layer@.len() ==> is_walk_between(
                g, layer@[j]@, start, layer@[j]@.last()) && layer@[j]@.len() == k + 1
                && g.contains_key(layer@[j]@.last()),
            forall|i: int| 0 <= i < n && #[trigger] visited@[i]
                ==> reachable_within(g, start, ko[i], k + 1),
            forall|i: int| 0 <= i < n && reachable_within(g, start, ko[i], k + 1)
                ==> #[trigger] visited@[i],
            forall|v: NodeId| #[trigger] on_frontier(g, start, v, k) ==> exists|j: int|
                0 <= j < layer@.len() && layer@[j]@.last() == v,
            !reachable_within(g, start, end, k + 1),
            forall|i: int| 0 <= i < n ==> (visited@[i] <==> vis.contains(i)),
            vis.subset_of(set_int_range(0, n as int)),
            vis.finite(),
            vis.len() <= n,
        decreases n - vis.len() + layer@.len(),
    {
        if layer.len() == 0 {
            assert forall|p: Seq<NodeId>| !#[trigger] is_walk_between(g, p, start, end) by {
                if is_walk_between(g, p, start, end) {
                    lemma_closed(g, start, p, k, p.len() - 1);
                }
            }
            return None;
        }
        let ghost vis0 = vis;
        let ghost visited0 = visited@;
        let mut next: Vec<Vec<NodeId>> = Vec::new();
        let mut j: usize = 0;
        while j < layer.len()
            invariant
                j <= layer@.len(),
                visited@.len() == n,
                forall|i: int| 0 <= i < n && visited0[i] ==> #[trigger] visited@[i],
                forall|jj: int| #![trigger next@[jj]] 0 <= jj < next@.len() ==> is_walk_between(
                    g, next@[jj]@, start, next@[jj]@.last()) && next@[jj]@.len() == k + 2
                    && g.contains_key(next@[jj]@.last()),
                forall|i: int| 0 <= i < n && #[trigger] visited@[i]
                    ==> reachable_within(g, start, ko[i], k + 2),
                forall|i: int| 0 <= i < n && visited@[i] && !vis0.contains(i) ==> exists|jj: int|
                    0 <= jj < next@.len() && next@[jj]@.last() == #[trigger] ko[i],
                forall|jj: int, i: int| 0 <= jj < j && 0 <= i < n && #[trigger] is_edge(
                    g, layer@[jj]@.last(), ko[i]) ==> visited@[i],
                forall|jj: int| 0 <= jj < j ==> !#[trigger] is_edge(g, layer@[jj]@.last(), end),
                forall|i: int| 0 <= i < n ==> (visited@[i] <==> vis.contains(i)),
                vis.subset_of(set_int_range(0, n as int)),
                vis0.subset_of(vis),
                vis.finite(),
                vis.len() == vis0.len() + next@.len(),
            decreases layer@.len() - j,
        {
            let path = &layer[j];
            let u = path[path.len() - 1];
            let succs = graph.successors(u).unwrap();
            let mut m: usize = 0;
            while m < succs.len()
                invariant
                    m <= succs@.len(),
                    succs@ == g[u],
                    visited@.len() == n,
                    forall|i: int| 0 <= i < n && visited0[i] ==> #[trigger] visited@[i],
                    forall|jj: int| #![trigger next@[jj]] 0 <= jj < next@.len() ==> is_walk_between(
                        g, next@[jj]@, start, next@[jj]@.last()) && next@[jj]@.len() == k + 2
                        && g.contains_key(next@[jj]@.last()),
                    forall|i: int| 0 <= i < n && #[trigger] visited@[i]
                        ==> reachable_within(g, start, ko[i], k + 2),
                    forall|i: int| 0 <= i < n && visited@[i] && !vis0.contains(i) ==> exists|jj: int|
                        0 <= jj < next@.len() && next@[jj]@.last() == #[trigger] ko[i],
                    forall|jj: int, i: int| 0 <= jj < j && 0 <= i < n && #[trigger] is_edge(
                        g, layer@[jj]@.last(), ko[i]) ==> visited@[i],
                    forall|jj: int| 0 <= jj < j ==> !#[trigger] is_edge(g, layer@[jj]@.last(), end),
                    forall|mm: int, i: int| 0 <= mm < m && 0 <= i < n && #[trigger] succs@[mm] == #[trigger] ko[i]
                        ==> visited@[i],
                    forall|mm: int| 0 <= mm < m ==> #[trigger] succs@[mm] != end,
                    forall|i: int| 0 <= i < n ==> (visited@[i] <==> vis.contains(i)),
                    vis.subset_of(set_int_range(0, n as int)),
                    vis0.subset_of(vis),
                    vis.finite(),
                    vis.len() == vis0.len() + next@.len(),
                decreases succs@.len() - m,
            {
                let w = succs[m];
                assert(succs@[m as int] == w);
                assert(is_edge(g, u, w));
                if w == end {
                    let found = extended(path, w);
                    proof {
                        lemma_extend(g, path@, start, w);
                        assert forall|q: Seq<NodeId>| #[trigger] is_walk_between(g, q, start, end)
                            implies found@.len() <= q.len() by {
                            if q.len() < found@.len() {
                                assert(reachable_within(g, start, end, k + 1));
                            }
                        }
                    }
                    return Some(found);
                }
                match graph.slot(w) {
                    Some(wi) => {
                        if !visited[wi] {
                            let ghost before = vis;
                            visited.set(wi, true);
                            let q = extended(path, w);
                            proof {
                                lemma_extend(g, path@, start, w);
                                vis = vis.insert(wi as int);
                                assert(!before.contains(wi as int));
                                assert(!vis0.contains(wi as int));
                            }
                            let ghost next_before = next@;
                            next.push(q);
                            proof {
                                assert(next@[next@.len() - 1]@.last() == ko[wi as int]);
                                assert forall|i: int| 0 <= i < n && visited@[i] && !vis0.contains(i)
                                    implies exists|jj: int| 0 <= jj < next@.len()
                                        && next@[jj]@.last() == #[trigger] ko[i] by {
                                    if i != wi as int {
                                        let jj = choose|jj: int| 0 <= jj < next@.len() - 1
                                            && next_before[jj]@.last() == ko[i];
                                        assert(next@[jj] == next_before[jj]);
                                    } else {
                                        assert(next@[next@.len() - 1]@.last() == ko[i]);
                                    }
                                }
                                assert(reachable_within(g, start, w, k + 2)) by {
                                    assert(is_walk_between(g, q@, start, w));
                                }
                            }
                        }
                    },
                    None => {},
                }
                m += 1;
            }
            proof {
                assert forall|i: int| 0 <= i < n && #[trigger] is_edge(g, layer@[j as int]@.last(), ko[i])
                    implies visited@[i] by {
                    let mm = choose|mm: int| 0 <= mm < succs@.len() && succs@[mm] == ko[i];
                }
                assert(!is_edge(g, layer@[j as int]@.last(), end));
            }
            j += 1;
        }
        proof {
            assert forall|i: int| 0 <= i < n && reachable_within(g, start, ko[i], k + 2)
                implies #[trigger] visited@[i] by {
                if !reachable_within(g, start, ko[i], k + 1) {
                    let u = lemma_predecessor(g, start, ko[i], k);
                    let jj = choose|jj: int| 0 <= jj < layer@.len() && layer@[jj]@.last() == u;
                    assert(is_edge(g, layer@[jj]@.last(), ko[i]));
                }
            }
            assert forall|v: NodeId| #[trigger] on_frontier(g, start, v, k + 1) implies exists|jj: int|
                0 <= jj < next@.len() && next@[jj]@.last() == v by {
                let i = choose|i: int| 0 <= i < ko.len() && ko[i] == v;
                assert(visited@[i]);
                assert(!visited0[i]);
            }
            if reachable_within(g, start, end, k + 2) {
                let u = lemma_predecessor(g, start, end, k);
                let jj = choose|jj: int| 0 <= jj < layer@.len() && layer@[jj]@.last() == u;
                assert(is_edge(g, layer@[jj]@.last(), end));
            }
            lemma_len_subset(vis, set_int_range(0, n as int));
        }
        layer = next;
        proof {
            k = k + 1;
        }
    }
}

} // verus!
