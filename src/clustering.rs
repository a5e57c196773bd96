use crate::graph::{is_edge, Adjacency, Graph, NodeId};
use crate::stats::Ratio;
use vstd::prelude::*;

verus! {

/// How many `b` in `s` differ from `a` and are successors of `a`.
pub open spec fn links_from(g: Adjacency, s: Seq<NodeId>, a: NodeId) -> nat
    decreases s.len(),
{
    if s.len() == 0 {
        0
    } else {
        let b = s.last();
        links_from(g, s.drop_last(), a) + if b != a && is_edge(g, a, b) {
            1nat
        } else {
            0nat
        }
    }
}

/// How many ordered pairs `(a, b)`, `a` from `outer` and `b` from `s`, have
/// `a != b` and an edge `a -> b`.
pub open spec fn linked_pairs(g: Adjacency, outer: Seq<NodeId>, s: Seq<NodeId>) -> nat
    decreases outer.len(),
{
    if outer.len() == 0 {
        0
    } else {
        linked_pairs(g, outer.drop_last(), s) + links_from(g, s, outer.last())
    }
}

/// The key nodes of `keys`, in order, that have at least two successors.
pub open spec fn branching(g: Adjacency, keys: Seq<NodeId>) -> Seq<NodeId>
    decreases keys.len(),
{
    if keys.len() == 0 {
        seq![]
    } else {
        let rest = branching(g, keys.drop_last());
        if g[keys.last()].len() >= 2 {
            rest.push(keys.last())
        } else {
            rest
        }
    }
}

/// The local clustering coefficient of a key node `u` with at least two
/// successors: linked ordered pairs of its successors over `k * (k - 1)`.
pub open spec fn local_coefficient(g: Adjacency, u: NodeId) -> (int, int) {
    let s = g[u];
    (linked_pairs(g, s, s) as int, s.len() * (s.len() - 1))
}

/// The local clustering coefficient of `node`: among the ordered pairs of
/// distinct successors `(a, b)` of `node`, the share with an edge `a -> b`.
/// A node with fewer than two successors, or that is not a key node, has
/// coefficient `0 / 1`.
#[verifier::loop_isolation(false)]
pub fn clustering_coefficient(graph: &Graph, node: NodeId) -> (r: Ratio)
    requires
        graph.wf(),
    ensures
        !graph@.contains_key(node) || graph@[node].len() < 2 ==> r == (Ratio { num: 0, den: 1 }),
        graph@.contains_key(node) && graph@[node].len() >= 2 ==> (r.num as int, r.den as int)
            == local_coefficient(graph@, node),
{
    let ghost g = graph@;
    let succs = match graph.successors(node) {
        Some(v) => v,
        None => {
            return Ratio { num: 0, den: 1 };
        },
    };
    let k = succs.len();
    if k < 2 {
        return Ratio { num: 0, den: 1 };
    }
    let ghost s = succs@;
    let kk = k as u128;
    let mut count: u128 = 0;
    let mut x: usize = 0;
    while x < k
        invariant
            x <= k,
            count == linked_pairs(g, s.subrange(0, x as int), s),
            count <= x * k,
        decreases k - x,
    {
        let a = succs[x];
        let mut y: usize = 0;
        let ghost base = count;
        while y < k
            invariant
                y <= k,
                count == base + links_from(g, s.subrange(0, y as int), a),
                count <= x * k + y,
            decreases k - y,
        {
            let b = succs[y];
            assert(s.subrange(0, y as int + 1).drop_last() == s.subrange(0, y as int));
            assert(s.subrange(0, y as int + 1).last() == b);
            if b != a && graph.has_edge(a, b) {
                assert(count + 1 <= u128::MAX) by (nonlinear_arith)
                    requires
                        count <= x * k + y,
                        x < k,
                        y < k,
                        k <= usize::MAX,
                ;
                count = count + 1;
            }
            y += 1;
        }
        proof {
            assert(s.subrange(0, y as int) == s);
            assert(s.subrange(0, x as int + 1).drop_last() == s.subrange(0, x as int));
            assert(s.subrange(0, x as int + 1).last() == a);
            assert(x * k + k == (x + 1) * k) by (nonlinear_arith);
        }
        x += 1;
    }
    assert(s.subrange(0, k as int) == s);
    assert(kk * (kk - 1) <= u128::MAX) by (nonlinear_arith)
        requires
            kk <= usize::MAX,
            kk >= 2,
    ;
    Ratio { num: count, den: kk * (kk - 1) }
}

/// The local clustering coefficients of the key nodes with at least two
/// successors, in key order. Their mean is the global clustering
/// coefficient; when the result is empty that coefficient is zero.
pub fn local_clustering_coefficients(graph: &Graph) -> (r: Vec<Ratio>)
    requires
        graph.wf(),
    ensures
        r@.len() == branching(graph@, graph.key_order()).len(),
        forall|i: int|
            0 <= i < r@.len() ==> ((#[trigger] r@[i]).num as int, r@[i].den as int)
                == local_coefficient(graph@, branching(graph@, graph.key_order())[i]),
{
    let n = graph.node_count();
    let ghost ko = graph.key_order();
    proof {
        graph.lemma_model();
    }
    let mut out: Vec<Ratio> = Vec::new();
    let mut i: usize = 0;
    while i < n
        invariant
            i <= n,
            n == ko.len(),
            ko == graph.key_order(),
            graph.wf(),
            forall|u: NodeId| #[trigger] graph@.contains_key(u) <==> ko.contains(u),
            out@.len() == branching(graph@, ko.subrange(0, i as int)).len(),
            forall|j: int|
                0 <= j < out@.len() ==> ((#[trigger] out@[j]).num as int, out@[j].den as int)
                    == local_coefficient(graph@, branching(graph@, ko.subrange(0, i as int))[j]),
        decreases n - i,
    {
        let u = graph.node_at(i);
        let k = graph.successors_at(i).len();
        assert(ko.subrange(0, i as int + 1).drop_last() == ko.subrange(0, i as int));
        assert(ko.subrange(0, i as int + 1).last() == u);
        if k >= 2 {
            assert(ko.contains(u));
            let c = clustering_coefficient(graph, u);
            out.push(c);
        }
        i += 1;
    }
    assert(ko.subrange(0, n as int) == ko);
    out
}

} // verus!
