use crate::graph::{is_edge, Adjacency, Graph, NodeId};
use vstd::prelude::*;
use vstd::set_lib::lemma_set_disjoint_lens;

verus! {

/// An exact non-negative rational number `num / den`.
#[derive(Clone, Copy, Debug, PartialEq, Eq, Structural)]
pub struct Ratio {
    pub num: u128,
    pub den: u128,
}

/// Why a statistic could not be computed.
#[derive(Clone, Copy, Debug, PartialEq, Eq, Structural)]
pub enum GraphError {
    /// The graph has no key node, so a division by the node count is undefined.
    EmptyGraph,
    /// An intermediate value does not fit the machine integers used.
    Overflow,
    /// A line of an edge list has two tokens that are not both numbers.
    MalformedInput,
}

/// The number of successors of `u`.
pub open spec fn out_degree(g: Adjacency, u: NodeId) -> nat {
    g[u].len()
}

/// The sum of the out-degrees of `keys`.
pub open spec fn degree_total(g: Adjacency, keys: Seq<NodeId>) -> nat
    decreases keys.len(),
{
    if keys.len() == 0 {
        0
    } else {
        degree_total(g, keys.drop_last()) + out_degree(g, keys.last())
    }
}

/// How many of `keys` have `v` among their successors.
pub open spec fn count_sources(g: Adjacency, keys: Seq<NodeId>, v: NodeId) -> nat
    decreases keys.len(),
{
    if keys.len() == 0 {
        0
    } else {
        count_sources(g, keys.drop_last(), v) + if g[keys.last()].contains(v) {
            1nat
        } else {
            0nat
        }
    }
}

/// The sum over `keys` of `(n * out_degree - total)^2`: `n^3` times the
/// population variance of the out-degrees when `total` is their sum and `n`
/// their number.
pub open spec fn spread(g: Adjacency, keys: Seq<NodeId>, n: int, total: int) -> nat
    decreases keys.len(),
{
    if keys.len() == 0 {
        0
    } else {
        let d = n * out_degree(g, keys.last()) - total;
        spread(g, keys.drop_last(), n, total) + (d * d) as nat
    }
}

proof fn lemma_degree_total_prefix(g: Adjacency, keys: Seq<NodeId>, i: int)
    requires
        0 <= i <= keys.len(),
    ensures
        degree_total(g, keys.subrange(0, i)) <= degree_total(g, keys),
    decreases keys.len() - i,
{
    if i < keys.len() {
        lemma_degree_total_prefix(g, keys, i + 1);
        assert(keys.subrange(0, i + 1).drop_last() == keys.subrange(0, i));
    } else {
        assert(keys.subrange(0, i) == keys);
    }
}

proof fn lemma_spread_prefix(g: Adjacency, keys: Seq<NodeId>, n: int, total: int, i: int)
    requires
        0 <= i <= keys.len(),
    ensures
        spread(g, keys.subrange(0, i), n, total) <= spread(g, keys, n, total),
    decreases keys.len() - i,
{
    if i < keys.len() {
        lemma_spread_prefix(g, keys, n, total, i + 1);
        assert(keys.subrange(0, i + 1).drop_last() == keys.subrange(0, i));
    } else {
        assert(keys.subrange(0, i) == keys);
    }
}

proof fn lemma_count_sources_bound(g: Adjacency, keys: Seq<NodeId>, v: NodeId)
    ensures
        count_sources(g, keys, v) <= keys.len(),
    decreases keys.len(),
{
    if keys.len() > 0 {
        lemma_count_sources_bound(g, keys.drop_last(), v);
    }
}

/// Out-degree centrality: for each key node, in key order, its number of
/// successors over the number of key nodes.
pub fn out_degree_centrality(graph: &Graph) -> (r: Result<Vec<(NodeId, Ratio)>, GraphError>)
    requires
        graph.wf(),
    ensures
        r is Err <==> graph@.dom().len() == 0,
        r matches Err(e) ==> e == GraphError::EmptyGraph,
        r matches Ok(v) ==> v@.len() == graph.key_order().len() && forall|i: int|
            0 <= i < v@.len() ==> (#[trigger] v@[i]).0 == graph.key_order()[i]
                && v@[i].1.num == out_degree(graph@, graph.key_order()[i])
                && v@[i].1.den == graph@.dom().len(),
{
    let n = graph.node_count();
    if n == 0 {
        return Err(GraphError::EmptyGraph);
    }
    let ghost ko = graph.key_order();
    let mut out: Vec<(NodeId, Ratio)> = Vec::new();
    let mut i: usize = 0;
    while i < n
        invariant
            i <= n,
            n == ko.len(),
            n == graph@.dom().len(),
            ko == graph.key_order(),
            graph.wf(),
            out@.len() == i,
            forall|j: int|
                0 <= j < i ==> (#[trigger] out@[j]).0 == ko[j] && out@[j].1.num == out_degree(
                    graph@,
                    ko[j],
                ) && out@[j].1.den == n,
        decreases n - i,
    {
        let d = graph.successors_at(i).len();
        out.push((graph.node_at(i), Ratio { num: d as u128, den: n as u128 }));
        i += 1;
    }
    Ok(out)
}

/// In-degree centrality: for each key node, in key order, the number of key
/// nodes that have it among their successors, over the number of key nodes.
#[verifier::loop_isolation(false)]
pub fn in_degree_centrality(graph: &Graph) -> (r: Result<Vec<(NodeId, Ratio)>, GraphError>)
    requires
        graph.wf(),
    ensures
        r is Err <==> graph@.dom().len() == 0,
        r matches Err(e) ==> e == GraphError::EmptyGraph,
        r matches Ok(v) ==> v@.len() == graph.key_order().len() && forall|i: int|
            0 <= i < v@.len() ==> (#[trigger] v@[i]).0 == graph.key_order()[i]
                && v@[i].1.num == count_sources(graph@, graph.key_order(), graph.key_order()[i])
                && v@[i].1.den == graph@.dom().len(),
{
    let n = graph.node_count();
    if n == 0 {
        return Err(GraphError::EmptyGraph);
    }
    let ghost g = graph@;
    let ghost ko = graph.key_order();
    proof {
        graph.lemma_model();
    }
    let mut counts: Vec<usize> = Vec::new();
    while counts.len() < n
        invariant
            counts@.len() <= n,
            forall|j: int| 0 <= j < counts@.len() ==> counts@[j] == 0,
        decreases n - counts@.len(),
    {
        counts.push(0);
    }
    let mut a: usize = 0;
    while a < n
        invariant
            a <= n,
            n == ko.len(),
            ko == graph.key_order(),
            g == graph@,
            graph.wf(),
            ko.no_duplicates(),
            counts@.len() == n,
            forall|j: int|
                0 <= j < n ==> #[trigger] counts@[j] == count_sources(
                    g,
                    ko.subrange(0, a as int),
                    ko[j],
                ),
        decreases n - a,
    {
        let succs = graph.successors_at(a);
        assert(ko.contains(ko[a as int]));
        assert(g.contains_key(ko[a as int]));
        let mut m: usize = 0;
        while m < succs.len()
            invariant
                a < n,
                m <= succs@.len(),
                succs@ == g[ko[a as int]],
                succs@.no_duplicates(),
                n == ko.len(),
                ko == graph.key_order(),
                g == graph@,
                graph.wf(),
                ko.no_duplicates(),
                counts@.len() == n,
                forall|j: int|
                    0 <= j < n ==> #[trigger] counts@[j] == count_sources(
                        g,
                        ko.subrange(0, a as int),
                        ko[j],
                    ) + if succs@.subrange(0, m as int).contains(ko[j]) {
                        1nat
                    } else {
                        0nat
                    },
            decreases succs@.len() - m,
        {
            let w = succs[m];
            let ghost before = counts@;
            let ghost mut hit: int = -1;
            match graph.slot(w) {
                Some(wi) => {
                    proof {
                        hit = wi as int;
                    }
                    proof {
                        lemma_count_sources_bound(g, ko.subrange(0, a as int), w);
                        if succs@.subrange(0, m as int).contains(w) {
                            let x = choose|x: int| 0 <= x < m && #[trigger] succs@.subrange(0, m as int)[x] == w;
                            assert(succs@[x] == succs@[m as int]);
                        }
                    }
                    counts.set(wi, counts[wi] + 1);
                },
                None => {},
            }
            assert(hit >= 0 ==> 0 <= hit < n && ko[hit] == w);
            assert(hit < 0 ==> !g.contains_key(w) && counts@ == before);
            proof {
                assert forall|j: int| 0 <= j < n implies #[trigger] counts@[j] == count_sources(
                    g,
                    ko.subrange(0, a as int),
                    ko[j],
                ) + if succs@.subrange(0, m as int + 1).contains(ko[j]) {
                    1nat
                } else {
                    0nat
                } by {
                    assert(succs@.subrange(0, m as int + 1) == succs@.subrange(0, m as int).push(w));
                    assert(before[j] == count_sources(g, ko.subrange(0, a as int), ko[j]) + if succs@.subrange(0, m as int).contains(ko[j]) {
                        1nat
                    } else {
                        0nat
                    });
                    assert(ko.contains(ko[j]));
                    if j == hit {
                        assert(succs@.subrange(0, m as int + 1)[m as int] == w);
                    } else {
                        assert(counts@[j] == before[j]);
                        assert(g.contains_key(ko[j]));
                        assert(ko[j] != w);
                        if succs@.subrange(0, m as int + 1).contains(ko[j]) {
                            let x = choose|x: int| 0 <= x <= m && #[trigger] succs@.subrange(0, m as int + 1)[x] == ko[j];
                            assert(succs@.subrange(0, m as int)[x] == ko[j]);
                        }
                    }
                }
            }
            m += 1;
        }
        proof {
            assert(succs@.subrange(0, m as int) == succs@);
            assert(ko.subrange(0, a as int + 1).drop_last() == ko.subrange(0, a as int));
            assert(ko.subrange(0, a as int + 1).last() == ko[a as int]);
        }
        a += 1;
    }
    assert(ko.subrange(0, n as int) == ko);
    let mut out: Vec<(NodeId, Ratio)> = Vec::new();
    let mut i: usize = 0;
    while i < n
        invariant
            i <= n,
            n == ko.len(),
            n == graph@.dom().len(),
            ko == graph.key_order(),
            g == graph@,
            graph.wf(),
            counts@.len() == n,
            forall|j: int| 0 <= j < n ==> #[trigger] counts@[j] == count_sources(g, ko, ko[j]),
            out@.len() == i,
            forall|j: int|
                0 <= j < i ==> (#[trigger] out@[j]).0 == ko[j] && out@[j].1.num == count_sources(
                    g,
                    ko,
                    ko[j],
                ) && out@[j].1.den == n,
        decreases n - i,
    {
        out.push((graph.node_at(i), Ratio { num: counts[i] as u128, den: n as u128 }));
        i += 1;
    }
    Ok(out)
}

/// The number of edges: the sum of the out-degrees of all key nodes, or
/// `Overflow` when that sum does not fit a `usize`.
pub fn total_edge_count(graph: &Graph) -> (r: Result<usize, GraphError>)
    requires
        graph.wf(),
    ensures
        r is Ok <==> degree_total(graph@, graph.key_order()) <= usize::MAX,
        r matches Ok(t) ==> t == degree_total(graph@, graph.key_order()),
        r matches Err(e) ==> e == GraphError::Overflow,
{
    let n = graph.node_count();
    let ghost ko = graph.key_order();
    let mut sum: usize = 0;
    let mut i: usize = 0;
    while i < n
        invariant
            i <= n,
            n == ko.len(),
            ko == graph.key_order(),
            graph.wf(),
            sum == degree_total(graph@, ko.subrange(0, i as int)),
        decreases n - i,
    {
        let d = graph.successors_at(i).len();
        proof {
            assert(ko.subrange(0, i as int + 1).drop_last() == ko.subrange(0, i as int));
            assert(ko.subrange(0, i as int + 1).last() == ko[i as int]);
            lemma_degree_total_prefix(graph@, ko, i as int + 1);
        }
        match sum.checked_add(d) {
            Some(t) => {
                sum = t;
            },
            None => {
                return Err(GraphError::Overflow);
            },
        }
        i += 1;
    }
    assert(ko.subrange(0, n as int) == ko);
    Ok(sum)
}

/// The mean out-degree over the key nodes: the number of edges over the
/// number of key nodes.
pub fn mean_degree(graph: &Graph) -> (r: Result<Ratio, GraphError>)
    requires
        graph.wf(),
    ensures
        r == Err::<Ratio, GraphError>(GraphError::EmptyGraph) <==> graph@.dom().len() == 0,
        r == Err::<Ratio, GraphError>(GraphError::Overflow) <==> graph@.dom().len() > 0
            && degree_total(graph@, graph.key_order()) > usize::MAX,
        r is Ok <==> graph@.dom().len() > 0 && degree_total(graph@, graph.key_order()) <= usize::MAX,
        r matches Ok(q) ==> q.num == degree_total(graph@, graph.key_order())
            && q.den == graph@.dom().len(),
{
    let n = graph.node_count();
    if n == 0 {
        return Err(GraphError::EmptyGraph);
    }
    match total_edge_count(graph) {
        Ok(t) => Ok(Ratio { num: t as u128, den: n as u128 }),
        Err(e) => Err(e),
    }
}

/// The population variance of the out-degrees of the key nodes, as the sum
/// of `(n * degree - edges)^2` over `n^3`, where `n` is the number of key
/// nodes and `edges` the sum of their degrees; `Overflow` when one of these
/// does not fit the integers used.
#[verifier::loop_isolation(false)]
pub fn degree_variance(graph: &Graph) -> (r: Result<Ratio, GraphError>)
    requires
        graph.wf(),
    ensures
        r == Err::<Ratio, GraphError>(GraphError::EmptyGraph) <==> graph@.dom().len() == 0,
        graph@.dom().len() > 0 ==> (r is Ok <==> {
            let n = graph@.dom().len() as int;
            let t = degree_total(graph@, graph.key_order());
            &&& t <= usize::MAX
            &&& n * n * n <= u128::MAX
            &&& spread(graph@, graph.key_order(), n, t as int) <= u128::MAX
        }),
        r matches Err(e) ==> (e == GraphError::Overflow <==> graph@.dom().len() > 0),
        r matches Ok(q) ==> {
            let n = graph@.dom().len() as int;
            &&& q.num == spread(graph@, graph.key_order(), n, degree_total(graph@, graph.key_order()) as int)
            &&& q.den == n * n * n
        },
{
    let n = graph.node_count();
    if n == 0 {
        return Err(GraphError::EmptyGraph);
    }
    let t = match total_edge_count(graph) {
        Ok(t) => t,
        Err(e) => {
            return Err(e);
        },
    };
    let ghost ko = graph.key_order();
    let nn = n as u128;
    assert(nn * nn <= u128::MAX) by (nonlinear_arith)
        requires
            nn <= usize::MAX,
    ;
    let den = match (nn * nn).checked_mul(nn) {
        Some(d) => d,
        None => {
            return Err(GraphError::Overflow);
        },
    };
    let mut acc: u128 = 0;
    let mut i: usize = 0;
    while i < n
        invariant
            i <= n,
            n == ko.len(),
            nn == n,
            ko == graph.key_order(),
            graph.wf(),
            acc == spread(graph@, ko.subrange(0, i as int), n as int, t as int),
        decreases n - i,
    {
        let d = graph.successors_at(i).len() as u128;
        assert(nn * d <= u128::MAX) by (nonlinear_arith)
            requires
                nn <= usize::MAX,
                d <= usize::MAX,
        ;
        let scaled = nn * d;
        let diff = if scaled >= t as u128 {
            scaled - t as u128
        } else {
            t as u128 - scaled
        };
        proof {
            assert(ko.subrange(0, i as int + 1).drop_last() == ko.subrange(0, i as int));
            assert(ko.subrange(0, i as int + 1).last() == ko[i as int]);
            lemma_spread_prefix(graph@, ko, n as int, t as int, i as int + 1);
            let e = n * out_degree(graph@, ko[i as int]) - t;
            assert(diff * diff == e * e) by (nonlinear_arith)
                requires
                    diff == e || diff == -e,
            ;
        }
        let sq = match diff.checked_mul(diff) {
            Some(x) => x,
            None => {
                return Err(GraphError::Overflow);
            },
        };
        acc = match acc.checked_add(sq) {
            Some(x) => x,
            None => {
                return Err(GraphError::Overflow);
            },
        };
        i += 1;
    }
    assert(ko.subrange(0, n as int) == ko);
    Ok(Ratio { num: acc, den })
}

/// The edges of `g`, as (source, target) pairs.
pub open spec fn edge_set(g: Adjacency) -> Set<(NodeId, NodeId)> {
    Set::new(|e: (NodeId, NodeId)| is_edge(g, e.0, e.1))
}

/// The key nodes of `g` that have `v` among their successors.
pub open spec fn sources(g: Adjacency, v: NodeId) -> Set<NodeId> {
    Set::new(|u: NodeId| g.contains_key(u) && g[u].contains(v))
}

proof fn lemma_drop_last_unique(s: Seq<NodeId>)
    requires
        s.len() > 0,
        s.no_duplicates(),
    ensures
        s.drop_last().no_duplicates(),
        !s.drop_last().contains(s.last()),
{
    let t = s.drop_last();
    assert forall|i: int, j: int| 0 <= i < t.len() && 0 <= j < t.len() && i != j implies t[i] != t[j] by {
        assert(t[i] == s[i] && t[j] == s[j]);
    }
    if t.contains(s.last()) {
        let i = choose|i: int| 0 <= i < t.len() && t[i] == s.last();
        assert(s[i] == s[s.len() - 1]);
    }
}

proof fn lemma_count_sources_set(g: Adjacency, s: Seq<NodeId>, v: NodeId)
    requires
        s.no_duplicates(),
    ensures
        Set::new(|u: NodeId| s.contains(u) && g[u].contains(v)).finite(),
        count_sources(g, s, v) == Set::new(|u: NodeId| s.contains(u) && g[u].contains(v)).len(),
    decreases s.len(),
{
    let here = Set::new(|u: NodeId| s.contains(u) && g[u].contains(v));
    if s.len() == 0 {
        assert(here =~= Set::empty());
    } else {
        let t = s.drop_last();
        let u = s.last();
        lemma_drop_last_unique(s);
        lemma_count_sources_set(g, t, v);
        let before = Set::new(|x: NodeId| t.contains(x) && g[x].contains(v));
        assert forall|x: NodeId| s.contains(x) <==> (t.contains(x) || x == u) by {
            if s.contains(x) && x != u {
                let i = choose|i: int| 0 <= i < s.len() && s[i] == x;
                assert(t[i] == x);
            }
            if t.contains(x) {
                let i = choose|i: int| 0 <= i < t.len() && t[i] == x;
                assert(s[i] == x);
            }
        }
        if g[u].contains(v) {
            assert(here =~= before.insert(u));
        } else {
            assert(here =~= before);
        }
    }
}

/// The in-degree of a node: the numerator that `in_degree_centrality`
/// reports for it, over the node count, is the number of key nodes whose
/// successors contain it.
pub proof fn lemma_in_degree_counts_sources(graph: &Graph, v: NodeId)
    requires
        graph.wf(),
    ensures
        sources(graph@, v).finite(),
        count_sources(graph@, graph.key_order(), v) == sources(graph@, v).len(),
{
    graph.lemma_model();
    let ko = graph.key_order();
    lemma_count_sources_set(graph@, ko, v);
    assert(sources(graph@, v) =~= Set::new(|u: NodeId| ko.contains(u) && graph@[u].contains(v)));
}

proof fn lemma_out_pairs(u: NodeId, q: Seq<NodeId>)
    requires
        q.no_duplicates(),
    ensures
        Set::new(|e: (NodeId, NodeId)| e.0 == u && q.contains(e.1)).finite(),
        Set::new(|e: (NodeId, NodeId)| e.0 == u && q.contains(e.1)).len() == q.len(),
    decreases q.len(),
{
    let here = Set::new(|e: (NodeId, NodeId)| e.0 == u && q.contains(e.1));
    if q.len() == 0 {
        assert(here =~= Set::empty());
    } else {
        let t = q.drop_last();
        lemma_drop_last_unique(q);
        lemma_out_pairs(u, t);
        let before = Set::new(|e: (NodeId, NodeId)| e.0 == u && t.contains(e.1));
        assert forall|e: (NodeId, NodeId)| here.contains(e) <==> before.insert((u, q.last())).contains(e) by {
            if q.contains(e.1) && e.1 != q.last() {
                let i = choose|i: int| 0 <= i < q.len() && q[i] == e.1;
                assert(t[i] == e.1);
            }
            if t.contains(e.1) {
                let i = choose|i: int| 0 <= i < t.len() && t[i] == e.1;
                assert(q[i] == e.1);
            }
        }
        assert(here =~= before.insert((u, q.last())));
    }
}

proof fn lemma_degree_total_edges(g: Adjacency, s: Seq<NodeId>)
    requires
        s.no_duplicates(),
        forall|u: NodeId| #[trigger] s.contains(u) ==> g.contains_key(u) && g[u].no_duplicates(),
    ensures
        Set::new(|e: (NodeId, NodeId)| s.contains(e.0) && is_edge(g, e.0, e.1)).finite(),
        degree_total(g, s) == Set::new(|e: (NodeId, NodeId)| s.contains(e.0) && is_edge(g, e.0, e.1)).len(),
    decreases s.len(),
{
    let here = Set::new(|e: (NodeId, NodeId)| s.contains(e.0) && is_edge(g, e.0, e.1));
    if s.len() == 0 {
        assert(here =~= Set::empty());
    } else {
        let t = s.drop_last();
        let u = s.last();
        lemma_drop_last_unique(s);
        assert forall|x: NodeId| s.contains(x) <==> (t.contains(x) || x == u) by {
            if s.contains(x) && x != u {
                let i = choose|i: int| 0 <= i < s.len() && s[i] == x;
                assert(t[i] == x);
            }
            if t.contains(x) {
                let i = choose|i: int| 0 <= i < t.len() && t[i] == x;
                assert(s[i] == x);
            }
        }
        assert(s.contains(u));
        lemma_degree_total_edges(g, t);
        lemma_out_pairs(u, g[u]);
        let before = Set::new(|e: (NodeId, NodeId)| t.contains(e.0) && is_edge(g, e.0, e.1));
        let out = Set::new(|e: (NodeId, NodeId)| e.0 == u && g[u].contains(e.1));
        assert(here =~= before + out);
        assert(before.disjoint(out));
        lemma_set_disjoint_lens(before, out);
    }
}

/// The out-degrees of all key nodes add up to the number of edges, so the
/// out-degree centralities (each over the node count) add up to the number
/// of edges over the number of key nodes.
pub proof fn lemma_out_degrees_sum_to_edges(graph: &Graph)
    requires
        graph.wf(),
    ensures
        edge_set(graph@).finite(),
        degree_total(graph@, graph.key_order()) == edge_set(graph@).len(),
{
    graph.lemma_model();
    let ko = graph.key_order();
    assert forall|u: NodeId| #[trigger] ko.contains(u) implies graph@.contains_key(u)
        && graph@[u].no_duplicates() by {
        assert(graph@.contains_key(u));
    }
    lemma_degree_total_edges(graph@, ko);
    assert(edge_set(graph@) =~= Set::new(|e: (NodeId, NodeId)| ko.contains(e.0) && is_edge(graph@, e.0, e.1)));
}

/// `f` renames no two nodes alike.
pub open spec fn one_to_one(f: spec_fn(NodeId) -> NodeId) -> bool {
    forall|x: NodeId, y: NodeId| #[trigger] f(x) == #[trigger] f(y) ==> x == y
}

/// `b` is `a` with every node renamed by `f`: the key nodes of `b` are the
/// renamed key nodes of `a`, each with the renamed successors.
pub open spec fn is_relabeling(a: Adjacency, b: Adjacency, f: spec_fn(NodeId) -> NodeId) -> bool {
    &&& forall|u: NodeId| #[trigger] a.contains_key(u) ==> b.contains_key(f(u)) && b[f(u)] == a[u].map_values(f)
    &&& forall|x: NodeId| #[trigger] b.contains_key(x) ==> exists|u: NodeId| a.contains_key(u) && f(u) == x
}

/// The sum of `h` over the elements of `k`.
spec fn seq_sum(k: Seq<NodeId>, h: spec_fn(NodeId) -> int) -> int
    decreases k.len(),
{
    if k.len() == 0 {
        0
    } else {
        seq_sum(k.drop_last(), h) + h(k.last())
    }
}

proof fn lemma_sum_remove(k: Seq<NodeId>, j: int, h: spec_fn(NodeId) -> int)
    requires
        0 <= j < k.len(),
    ensures
        seq_sum(k, h) == seq_sum(k.remove(j), h) + h(k[j]),
    decreases k.len(),
{
    if j == k.len() - 1 {
        assert(k.remove(j) =~= k.drop_last());
    } else {
        lemma_sum_remove(k.drop_last(), j, h);
        assert(k.drop_last().remove(j) =~= k.remove(j).drop_last());
        assert(k.remove(j).last() == k.last());
    }
}

proof fn lemma_sum_perm(k1: Seq<NodeId>, k2: Seq<NodeId>, h: spec_fn(NodeId) -> int)
    requires
        k1.no_duplicates(),
        k2.no_duplicates(),
        forall|x: NodeId| k1.contains(x) <==> k2.contains(x),
    ensures
        k1.len() == k2.len(),
        seq_sum(k1, h) == seq_sum(k2, h),
    decreases k1.len(),
{
    if k1.len() == 0 {
        if k2.len() > 0 {
            assert(k2.contains(k2[0]));
        }
    } else {
        let x = k1.last();
        assert(k1.contains(x));
        let j = choose|j: int| 0 <= j < k2.len() && k2[j] == x;
        let r1 = k1.drop_last();
        let r2 = k2.remove(j);
        assert forall|a: int, b: int| 0 <= a < r1.len() && 0 <= b < r1.len() && a != b implies r1[a] != r1[b] by {
            assert(r1[a] == k1[a] && r1[b] == k1[b]);
        }
        assert forall|a: int, b: int| 0 <= a < r2.len() && 0 <= b < r2.len() && a != b implies r2[a] != r2[b] by {
            let a2 = if a < j { a } else { a + 1 };
            let b2 = if b < j { b } else { b + 1 };
            assert(r2[a] == k2[a2] && r2[b] == k2[b2]);
        }
        assert forall|y: NodeId| r1.contains(y) <==> r2.contains(y) by {
            if r1.contains(y) {
                let a = choose|a: int| 0 <= a < r1.len() && r1[a] == y;
                assert(k1[a] == y);
                assert(y != x);
                assert(k1.contains(y));
                let b = choose|b: int| 0 <= b < k2.len() && k2[b] == y;
                assert(b != j);
                if b < j {
                    assert(r2[b] == y);
                } else {
                    assert(r2[b - 1] == y);
                }
            }
            if r2.contains(y) {
                let b = choose|b: int| 0 <= b < r2.len() && r2[b] == y;
                let b2 = if b < j { b } else { b + 1 };
                assert(k2[b2] == y);
                assert(b2 != j);
                assert(k2.contains(y));
                let a = choose|a: int| 0 <= a < k1.len() && k1[a] == y;
                assert(a != k1.len() - 1);
                assert(r1[a] == y);
            }
        }
        lemma_sum_perm(r1, r2, h);
        lemma_sum_remove(k2, j, h);
    }
}

proof fn lemma_sum_map(k: Seq<NodeId>, f: spec_fn(NodeId) -> NodeId, ha: spec_fn(NodeId) -> int, hb: spec_fn(NodeId) -> int)
    requires
        forall|i: int| 0 <= i < k.len() ==> hb(f(#[trigger] k[i])) == ha(k[i]),
    ensures
        seq_sum(k.map_values(f), hb) == seq_sum(k, ha),
    decreases k.len(),
{
    if k.len() > 0 {
        let r = k.drop_last();
        assert forall|i: int| 0 <= i < r.len() implies hb(f(#[trigger] r[i])) == ha(r[i]) by {
            assert(r[i] == k[i]);
        }
        lemma_sum_map(r, f, ha, hb);
        assert(k.map_values(f).drop_last() =~= r.map_values(f));
        assert(hb(f(k[k.len() - 1])) == ha(k[k.len() - 1]));
    }
}

proof fn lemma_degree_sums(g: Adjacency, k: Seq<NodeId>, n: int, t: int)
    ensures
        degree_total(g, k) == seq_sum(k, |u: NodeId| out_degree(g, u) as int),
        spread(g, k, n, t) == seq_sum(k, |u: NodeId| ((n * out_degree(g, u) - t) * (n * out_degree(g, u) - t)) as nat as int),
    decreases k.len(),
{
    if k.len() > 0 {
        lemma_degree_sums(g, k.drop_last(), n, t);
    }
}

/// Renaming the nodes of a graph one-to-one leaves its degree statistics
/// unchanged: the renamed graph has as many key nodes, the same number of
/// edges and the same spread of out-degrees, whatever the order of its key
/// nodes, so `mean_degree` and `degree_variance` give the same result on both.
pub proof fn lemma_relabel_keeps_degree_statistics(
    a: &Graph,
    b: &Graph,
    f: spec_fn(NodeId) -> NodeId,
)
    requires
        one_to_one(f),
        a.wf(),
        b.wf(),
        is_relabeling(a@, b@, f),
    ensures
        b@.dom().len() == a@.dom().len(),
        degree_total(b@, b.key_order()) == degree_total(a@, a.key_order()),
        forall|n: int, t: int|
            #[trigger] spread(b@, b.key_order(), n, t) == spread(a@, a.key_order(), n, t),
{
    a.lemma_model();
    b.lemma_model();
    let ka = a.key_order();
    let kb = b.key_order();
    let km = ka.map_values(f);
    assert forall|x: int, y: int| 0 <= x < km.len() && 0 <= y < km.len() && x != y implies km[x] != km[y] by {
        if km[x] == km[y] {
            assert(f(ka[x]) == f(ka[y]));
        }
    }
    assert forall|x: NodeId| km.contains(x) <==> kb.contains(x) by {
        if km.contains(x) {
            let i = choose|i: int| 0 <= i < km.len() && km[i] == x;
            assert(ka.contains(ka[i]));
            assert(a@.contains_key(ka[i]));
            assert(b@.contains_key(x));
        }
        if kb.contains(x) {
            assert(b@.contains_key(x));
            let u = choose|u: NodeId| a@.contains_key(u) && f(u) == x;
            assert(ka.contains(u));
            let i = choose|i: int| 0 <= i < ka.len() && ka[i] == u;
            assert(km[i] == x);
        }
    }
    assert forall|i: int| 0 <= i < ka.len() implies b@[f(#[trigger] ka[i])].len() == a@[ka[i]].len() by {
        assert(ka.contains(ka[i]));
        assert(a@.contains_key(ka[i]));
    }
    let da = |u: NodeId| out_degree(a@, u) as int;
    let db = |u: NodeId| out_degree(b@, u) as int;
    lemma_degree_sums(a@, ka, 0, 0);
    lemma_degree_sums(b@, kb, 0, 0);
    lemma_sum_perm(km, kb, db);
    lemma_sum_map(ka, f, da, db);
    assert forall|n: int, t: int| #[trigger] spread(b@, kb, n, t) == spread(a@, ka, n, t) by {
        let sa = |u: NodeId| ((n * out_degree(a@, u) - t) * (n * out_degree(a@, u) - t)) as nat as int;
        let sb = |u: NodeId| ((n * out_degree(b@, u) - t) * (n * out_degree(b@, u) - t)) as nat as int;
        lemma_degree_sums(a@, ka, n, t);
        lemma_degree_sums(b@, kb, n, t);
        lemma_sum_perm(km, kb, sb);
        lemma_sum_map(ka, f, sa, sb);
    }
}

} // verus!
