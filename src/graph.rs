use std::collections::{HashMap, HashSet};
use vstd::prelude::*;

verus! {

broadcast use vstd::std_specs::hash::group_hash_axioms;

/// A node identifier.
pub type NodeId = usize;

/// The model of a graph: each node that is the source of at least one edge
/// maps to its successors, without repetition, in the order in which they
/// were first added.
pub type Adjacency = Map<NodeId, Seq<NodeId>>;

/// True when `a -> b` is an edge of `g`.
pub open spec fn is_edge(g: Adjacency, a: NodeId, b: NodeId) -> bool {
    g.contains_key(a) && g[a].contains(b)
}

/// The model after the edge `u -> v` has been added: `u` becomes a key if it
/// was not one, and `v` is appended to its successors unless already there.
pub open spec fn with_edge(g: Adjacency, u: NodeId, v: NodeId) -> Adjacency {
    if g.contains_key(u) {
        if g[u].contains(v) {
            g
        } else {
            g.insert(u, g[u].push(v))
        }
    } else {
        g.insert(u, seq![v])
    }
}

/// The model of the graph built from a sequence of edges, in order.
pub open spec fn graph_of(edges: Seq<(NodeId, NodeId)>) -> Adjacency
    decreases edges.len(),
{
    if edges.len() == 0 {
        Map::empty()
    } else {
        let last = edges.last();
        with_edge(graph_of(edges.drop_last()), last.0, last.1)
    }
}

/// The key nodes of the graph built from `edges`, in order of first
/// appearance as a source.
pub open spec fn key_order_of(edges: Seq<(NodeId, NodeId)>) -> Seq<NodeId>
    decreases edges.len(),
{
    if edges.len() == 0 {
        seq![]
    } else {
        let rest = edges.drop_last();
        let u = edges.last().0;
        if graph_of(rest).contains_key(u) {
            key_order_of(rest)
        } else {
            key_order_of(rest).push(u)
        }
    }
}

/// A directed graph stored as adjacency lists. Every key node has a slot in
/// `nodes`, `succ` and `members`, and `index` maps the node to that slot;
/// `members` holds the same successors as `succ`, for lookups.
pub struct Graph {
    index: HashMap<NodeId, usize>,
    nodes: Vec<NodeId>,
    succ: Vec<Vec<NodeId>>,
    members: Vec<HashSet<NodeId>>,
}

impl View for Graph {
    type V = Adjacency;

    closed spec fn view(&self) -> Adjacency {
        Map::new(
            |u: NodeId| self.index@.contains_key(u),
            |u: NodeId| self.succ@[self.index@[u] as int]@,
        )
    }
}

impl Graph {
    /// The internal consistency of the three fields.
    pub closed spec fn wf(&self) -> bool {
        &&& self.nodes@.len() == self.succ@.len()
        &&& self.nodes@.no_duplicates()
        &&& forall|u: NodeId| #[trigger] self.index@.contains_key(u) <==> self.nodes@.contains(u)
        &&& forall|i: int|
            0 <= i < self.nodes@.len() ==> self.index@[#[trigger] self.nodes@[i]] == i
        &&& forall|i: int| 0 <= i < self.succ@.len() ==> (#[trigger] self.succ@[i])@.no_duplicates()
        &&& self.members@.len() == self.succ@.len()
        &&& forall|i: int|
            0 <= i < self.members@.len() ==> (#[trigger] self.members@[i])@ == self.succ@[i]@.to_set()
    }

    /// The key nodes in the order in which they were first added.
    pub closed spec fn key_order(&self) -> Seq<NodeId> {
        self.nodes@
    }

    /// What a well-formed graph guarantees of its model.
    pub proof fn lemma_model(&self)
        requires
            self.wf(),
        ensures
            self.key_order().no_duplicates(),
            forall|u: NodeId| #[trigger] self@.contains_key(u) <==> self.key_order().contains(u),
            self@.dom() == self.key_order().to_set(),
            self@.dom().finite(),
            self@.dom().len() == self.key_order().len(),
            forall|u: NodeId| #[trigger] self@.contains_key(u) ==> self@[u].no_duplicates(),
    {
        assert(self@.dom() =~= self.key_order().to_set());
        self.nodes@.unique_seq_to_set();
        assert forall|u: NodeId| #[trigger] self@.contains_key(u) implies self@[u].no_duplicates() by {
            let j = choose|j: int| 0 <= j < self.nodes@.len() && self.nodes@[j] == u;
            assert(self.index@[self.nodes@[j]] == j);
        }
    }

    /// An empty graph.
    pub fn new() -> (g: Graph)
        ensures
            g.wf(),
            g@ == Map::<NodeId, Seq<NodeId>>::empty(),
            g.key_order() == Seq::<NodeId>::empty(),
    {
        let g = Graph {
            index: HashMap::new(),
            nodes: Vec::new(),
            succ: Vec::new(),
            members: Vec::new(),
        };
        assert(g@ =~= Map::<NodeId, Seq<NodeId>>::empty());
        assert(g.key_order() =~= Seq::<NodeId>::empty());
        g
    }

    /// The number of key nodes.
    pub fn node_count(&self) -> (r: usize)
        requires
            self.wf(),
        ensures
            r == self.key_order().len(),
            r == self@.dom().len(),
    {
        proof {
            self.lemma_model();
        }
        self.nodes.len()
    }

    /// The key node in slot `i` of the key order.
    pub fn node_at(&self, i: usize) -> (r: NodeId)
        requires
            self.wf(),
            i < self.key_order().len(),
        ensures
            r == self.key_order()[i as int],
    {
        self.nodes[i]
    }

    /// The successors of `u`, or `None` when `u` is not a key node.
    pub fn successors(&self, u: NodeId) -> (r: Option<&Vec<NodeId>>)
        requires
            self.wf(),
        ensures
            r is None <==> !self@.contains_key(u),
            r matches Some(v) ==> v@ == self@[u],
    {
        match self.slot(u) {
            Some(i) => Some(&self.succ[i]),
            None => None,
        }
    }

    /// The successors of the key node in slot `i`.
    pub fn successors_at(&self, i: usize) -> (r: &Vec<NodeId>)
        requires
            self.wf(),
            i < self.key_order().len(),
        ensures
            r@ == self@[self.key_order()[i as int]],
    {
        assert(self.index@[self.nodes@[i as int]] == i);
        assert(self.index@.contains_key(self.nodes@[i as int]));
        &self.succ[i]
    }

    /// Whether `u -> v` is an edge.
    pub fn has_edge(&self, u: NodeId, v: NodeId) -> (r: bool)
        requires
            self.wf(),
        ensures
            r == is_edge(self@, u, v),
    {
        match self.slot(u) {
            Some(i) => {
                assert(self.index@[self.nodes@[i as int]] == i);
                let r = self.members[i].contains(&v);
                assert(r == self.succ@[i as int]@.to_set().contains(v));
                r
            },
            None => false,
        }
    }

    /// The slot of `u` in the key order, if `u` is a key node.
    pub fn slot(&self, u: NodeId) -> (r: Option<usize>)
        requires
            self.wf(),
        ensures
            r is None <==> !self@.contains_key(u),
            r matches Some(i) ==> i < self.key_order().len() && self.key_order()[i as int] == u,
    {
        match self.index.get(&u) {
            Some(i) => {
                let i = *i;
                proof {
                    let j = choose|j: int| 0 <= j < self.nodes@.len() && self.nodes@[j] == u;
                    assert(self.index@[self.nodes@[j]] == j);
                }
                Some(i)
            },
            None => None,
        }
    }

    /// Adds the edge `from -> to`. A repeated edge leaves the graph as it was.
    pub fn add_edge(&mut self, from: NodeId, to: NodeId)
        requires
            old(self).wf(),
        ensures
            final(self).wf(),
            final(self)@ == with_edge(old(self)@, from, to),
            final(self).key_order() == if old(self)@.contains_key(from) {
                old(self).key_order()
            } else {
                old(self).key_order().push(from)
            },
    {
        match self.slot(from) {
            Some(i) => {
                assert(self.index@[self.nodes@[i as int]] == i);
                if self.members[i].contains(&to) {
                    assert(self.succ@[i as int]@.to_set().contains(to));
                    assert(old(self)@[from].contains(to));
                    assert(with_edge(old(self)@, from, to) == old(self)@);
                    return;
                }
                let ghost before = self.succ@[i as int]@;
                let ghost set_before = self.members@[i as int]@;
                self.succ[i].push(to);
                self.members[i].insert(to);
                proof {
                    assert(!before.contains(to));
                    assert(set_before == before.to_set());
                    assert(self.members@[i as int]@ == set_before.insert(to));
                    assert forall|x: NodeId| before.push(to).contains(x) <==> (before.contains(x) || x == to) by {
                        if before.push(to).contains(x) && x != to {
                            let m = choose|m: int| 0 <= m < before.len() + 1 && before.push(to)[m] == x;
                            assert(before[m] == x);
                        }
                        if before.contains(x) {
                            let m = choose|m: int| 0 <= m < before.len() && before[m] == x;
                            assert(before.push(to)[m] == x);
                        }
                        if x == to {
                            assert(before.push(to)[before.len() as int] == to);
                        }
                    }
                    assert(self.members@[i as int]@ =~= self.succ@[i as int]@.to_set());
                    assert forall|j: int| 0 <= j < self.members@.len() implies (
                    #[trigger] self.members@[j])@ == self.succ@[j]@.to_set() by {
                        if j != i as int {
                            assert(old(self).members@[j] == self.members@[j]);
                            assert(old(self).succ@[j] == self.succ@[j]);
                        }
                    }
                    assert(self.succ@[i as int]@ == before.push(to));
                    assert forall|j: int| 0 <= j < self.succ@.len() implies (
                    #[trigger] self.succ@[j])@.no_duplicates() by {
                        if j == i as int {
                            assert(old(self).succ@[j]@.no_duplicates());
                        } else {
                            assert(old(self).succ@[j] == self.succ@[j]);
                        }
                    }
                    assert(self@ =~= with_edge(old(self)@, from, to));
                }
            },
            None => {
                let slot = self.nodes.len();
                self.index.insert(from, slot);
                self.nodes.push(from);
                self.succ.push(vec![to]);
                let mut set: HashSet<NodeId> = HashSet::new();
                set.insert(to);
                self.members.push(set);
                proof {
                    assert(self.succ@[slot as int]@ =~= seq![to]);
                    assert(self.members@[slot as int]@ =~= self.succ@[slot as int]@.to_set());
                    assert forall|j: int| 0 <= j < self.members@.len() implies (
                    #[trigger] self.members@[j])@ == self.succ@[j]@.to_set() by {
                        if j < slot {
                            assert(old(self).members@[j] == self.members@[j]);
                            assert(old(self).succ@[j] == self.succ@[j]);
                        }
                    }
                    assert forall|u: NodeId| #[trigger] self.index@.contains_key(u) <==> self.nodes@.contains(u) by {
                        assert(self.nodes@ == old(self).nodes@.push(from));
                        assert(self.nodes@[slot as int] == from);
                        if u != from {
                            assert(self.index@.contains_key(u) == old(self).index@.contains_key(u));
                            assert(old(self).index@.contains_key(u) == old(self).nodes@.contains(u));
                            if old(self).nodes@.contains(u) {
                                let j = choose|j: int| 0 <= j < old(self).nodes@.len() && old(self).nodes@[j] == u;
                                assert(self.nodes@[j] == u);
                            }
                            if self.nodes@.contains(u) {
                                let j = choose|j: int| 0 <= j < self.nodes@.len() && self.nodes@[j] == u;
                                assert(j != slot as int);
                                assert(old(self).nodes@[j] == u);
                            }
                        }
                    }
                    assert forall|i: int| 0 <= i < self.nodes@.len() implies self.index@[#[trigger] self.nodes@[i]] == i by {
                        if i < slot {
                            assert(old(self).nodes@[i] == self.nodes@[i]);
                            assert(old(self).nodes@.contains(self.nodes@[i]));
                        }
                    }
                    assert forall|j: int| 0 <= j < self.succ@.len() implies (
                    #[trigger] self.succ@[j])@.no_duplicates() by {
                        if j < slot {
                            assert(old(self).succ@[j] == self.succ@[j]);
                        }
                    }
                    assert(self@ =~= with_edge(old(self)@, from, to));
                }
            },
        }
    }

    /// The graph that holds exactly the given edges, added in order.
    pub fn from_edges(edges: &Vec<(NodeId, NodeId)>) -> (g: Graph)
        ensures
            g.wf(),
            g@ == graph_of(edges@),
            g.key_order() == key_order_of(edges@),
    {
        let mut g = Graph::new();
        let mut i: usize = 0;
        while i < edges.len()
            invariant
                i <= edges@.len(),
                g.wf(),
                g@ == graph_of(edges@.subrange(0, i as int)),
                g.key_order() == key_order_of(edges@.subrange(0, i as int)),
            decreases edges@.len() - i,
        {
            let (u, v) = edges[i];
            g.add_edge(u, v);
            assert(edges@.subrange(0, i as int + 1).drop_last() == edges@.subrange(0, i as int));
            assert(edges@.subrange(0, i as int + 1).last() == (u, v));
            i += 1;
        }
        assert(edges@.subrange(0, edges@.len() as int) == edges@);
        g
    }
}

} // verus!
